//! Tickets: fields with the ranges of their values, and the columns of the
//! tickets that belong to the fields.

use vstd::prelude::*;
use vstd::string::StringExecFns;
use crate::text::line_texts;
use crate::text::{
    chars_of, pieces, same_text, split2, split_first, split_str, split_string, str_views,
    trim_str, trimmed, u32_of, unsigned_within,
};

verus! {

/// The numbers from `min` to `max`.
#[derive(Clone, Copy, Debug, PartialEq, Eq, Structural)]
pub struct Range {
    pub min: u32,
    pub max: u32,
}

/// The range that `<min>-<max>` denotes, white space around the numbers
/// ignored.
pub open spec fn range_of(s: Seq<char>) -> Option<Range> {
    match split_first(s, seq!['-']) {
        Some((lo, hi)) => match (
            unsigned_within(trimmed(lo), u32::MAX as nat),
            unsigned_within(trimmed(hi), u32::MAX as nat),
        ) {
            (Some(min), Some(max)) => Some(Range { min: min as u32, max: max as u32 }),
            _ => None,
        },
        None => None,
    }
}

impl Range {
    /// The numbers from `min` to `max`.
    pub fn new(min: u32, max: u32) -> (r: Range)
        ensures
            r == (Range { min, max }),
    {
        Range { min, max }
    }

    /// Reads a range of the form `<min>-<max>`.
    pub fn parse(s: &str) -> (r: Option<Range>)
        ensures
            r == range_of(s@),
    {
        let (lo, hi) = match split_string(s, '-') {
            Some(p) => p,
            None => {
                return None;
            },
        };
        let min = match u32_of(trim_str(lo)) {
            Some(n) => n,
            None => {
                return None;
            },
        };
        let max = match u32_of(trim_str(hi)) {
            Some(n) => n,
            None => {
                return None;
            },
        };
        Some(Range::new(min, max))
    }

    /// Whether `val` lies in the range.
    pub fn includes(&self, val: u32) -> (b: bool)
        ensures
            b == (self.min <= val <= self.max),
    {
        val >= self.min && val <= self.max
    }
}

/// A field of a ticket: its name, the two ranges of its values, and the
/// column of the tickets that belongs to it, once that is known.
pub struct FieldDef {
    pub name: String,
    pub first_range: Range,
    pub second_range: Range,
    pub input_index: Option<u32>,
}

/// A field as a mathematical value.
pub struct FieldView {
    pub name: Seq<char>,
    pub first_range: Range,
    pub second_range: Range,
    pub input_index: Option<u32>,
}

impl View for FieldDef {
    type V = FieldView;

    /// The field with its name as a sequence.
    open spec fn view(&self) -> FieldView {
        FieldView {
            name: self.name@,
            first_range: self.first_range,
            second_range: self.second_range,
            input_index: self.input_index,
        }
    }
}

impl FieldView {
    /// `val` lies in one of the two ranges of the field.
    pub open spec fn includes(self, val: u32) -> bool {
        (self.first_range.min <= val <= self.first_range.max) || (self.second_range.min <= val
            <= self.second_range.max)
    }
}

/// The word ` or `.
pub open spec fn or_word() -> Seq<char> {
    seq![' ', 'o', 'r', ' ']
}

/// The field that `<name>: <range> or <range>` denotes. No column belongs
/// to it yet.
pub open spec fn field_of(s: Seq<char>) -> Option<FieldView> {
    match split_first(s, seq![':']) {
        Some((name, rest)) => match split_first(trimmed(rest), or_word()) {
            Some((first, second)) => match (range_of(first), range_of(second)) {
                (Some(first_range), Some(second_range)) => Some(
                    FieldView { name, first_range, second_range, input_index: None },
                ),
                _ => None,
            },
            None => None,
        },
        None => None,
    }
}

/// The word ` or `.
fn or_str() -> (r: &'static str)
    ensures
        r@ == or_word(),
{
    proof {
        reveal_strlit(" or ");
    }
    let r = " or ";
    assert(r@ =~= or_word());
    r
}

impl FieldDef {
    /// A field without a column.
    pub fn new(name: &str, first_range: Range, second_range: Range) -> (f: FieldDef)
        ensures
            f@ == (FieldView { name: name@, first_range, second_range, input_index: None }),
    {
        FieldDef { name: String::from_str(name), first_range, second_range, input_index: None }
    }

    /// Reads a field of the form `<name>: <range> or <range>`.
    pub fn parse(s: &str) -> (r: Option<FieldDef>)
        ensures
            match r {
                Some(f) => field_of(s@) == Some(f@),
                None => field_of(s@) is None,
            },
    {
        let (name, rest) = match split_string(s, ':') {
            Some(p) => p,
            None => {
                return None;
            },
        };
        let (first, second) = match split2(trim_str(rest), or_str()) {
            Some(p) => p,
            None => {
                return None;
            },
        };
        let first_range = match Range::parse(first) {
            Some(r) => r,
            None => {
                return None;
            },
        };
        let second_range = match Range::parse(second) {
            Some(r) => r,
            None => {
                return None;
            },
        };
        Some(FieldDef::new(name, first_range, second_range))
    }

    /// Whether `val` lies in one of the two ranges of the field.
    pub fn includes(&self, val: u32) -> (b: bool)
        ensures
            b == self@.includes(val),
    {
        self.first_range.includes(val) || self.second_range.includes(val)
    }
}

/// The fields, my ticket and the tickets nearby.
pub struct Input {
    pub field_defs: Vec<FieldDef>,
    pub my_ticket: Vec<u32>,
    pub nearby_tickets: Vec<Vec<u32>>,
}

/// The views of the fields.
pub open spec fn field_views(defs: Seq<FieldDef>) -> Seq<FieldView> {
    defs.map_values(|f: FieldDef| f@)
}

/// The views of the tickets.
pub open spec fn ticket_views(tickets: Seq<Vec<u32>>) -> Seq<Seq<u32>> {
    tickets.map_values(|t: Vec<u32>| t@)
}

/// The field `i` has no column yet and `val` is a value of it.
pub open spec fn may_be(defs: Seq<FieldView>, i: int, val: u32) -> bool {
    defs[i].input_index is None && defs[i].includes(val)
}

/// The bits of the first `k` fields of which `val` may be a value: bit `i`
/// for field `i`.
pub open spec fn field_bits(defs: Seq<FieldView>, val: u32, k: int) -> u32
    decreases k,
{
    if k <= 0 {
        0
    } else if may_be(defs, k - 1, val) {
        field_bits(defs, val, k - 1) | (1u32 << ((k - 1) as u32))
    } else {
        field_bits(defs, val, k - 1)
    }
}

/// Bit `i` of the bits of the first `k` fields is set exactly if `i` is
/// one of them and `val` may be a value of it.
pub proof fn lemma_field_bit(defs: Seq<FieldView>, val: u32, k: int, i: u32)
    requires
        0 <= k <= 32,
        i < 32,
    ensures
        ((field_bits(defs, val, k) >> i) & 1 != 0) <==> (i < k && may_be(defs, i as int, val)),
    decreases k,
{
    if k > 0 {
        lemma_field_bit(defs, val, k - 1, i);
        let rest = field_bits(defs, val, k - 1);
        let j = (k - 1) as u32;
        assert(((rest | (1u32 << j)) >> i) & 1 != 0 <==> (((rest >> i) & 1 != 0) || i == j))
            by (bit_vector)
            requires
                i < 32,
                j < 32,
        ;
    } else {
        assert((0u32 >> i) & 1 == 0) by (bit_vector);
    }
}

/// Every value of the ticket may be a value of some field.
pub open spec fn ticket_ok(defs: Seq<FieldView>, ticket: Seq<u32>) -> bool {
    forall|j: int|
        0 <= j < ticket.len() ==> field_bits(defs, #[trigger] ticket[j], defs.len() as int) != 0
}

/// Those of the tickets of which every value may be a value of some field.
pub open spec fn valid_tickets(defs: Seq<FieldView>, tickets: Seq<Seq<u32>>) -> Seq<Seq<u32>>
    decreases tickets.len(),
{
    if tickets.len() == 0 {
        Seq::empty()
    } else if ticket_ok(defs, tickets.last()) {
        valid_tickets(defs, tickets.drop_last()).push(tickets.last())
    } else {
        valid_tickets(defs, tickets.drop_last())
    }
}

/// Bit `i` of `bits` is set.
pub open spec fn has_bit(bits: u32, i: u32) -> bool {
    (bits >> i) & 1 != 0
}

/// Whether bit `index` of `bits` is set.
pub fn test_bit(bits: u32, index: usize) -> (b: bool)
    requires
        index < 32,
    ensures
        b == has_bit(bits, index as u32),
{
    ((bits >> index) & 1) != 0
}

impl Input {
    /// Nothing: no fields, no tickets.
    pub fn new() -> (input: Input)
        ensures
            input.field_defs@.len() == 0,
            input.my_ticket@.len() == 0,
            input.nearby_tickets@.len() == 0,
    {
        Input { field_defs: Vec::new(), my_ticket: Vec::new(), nearby_tickets: Vec::new() }
    }

    /// The bits of the fields that have no column yet and of which `val`
    /// is a value.
    pub fn valid_field_bits(&self, val: u32) -> (bits: u32)
        requires
            self.field_defs@.len() <= 32,
        ensures
            bits == field_bits(field_views(self.field_defs@), val, self.field_defs@.len() as int),
    {
        let ghost defs = field_views(self.field_defs@);
        let mut valid_bits: u32 = 0;
        let mut i: usize = 0;
        while i < self.field_defs.len()
            invariant
                defs == field_views(self.field_defs@),
                self.field_defs@.len() <= 32,
                i <= self.field_defs@.len(),
                valid_bits == field_bits(defs, val, i as int),
            decreases self.field_defs@.len() - i,
        {
            let def = &self.field_defs[i];
            proof {
                assert(defs[i as int] == def@);
            }
            if def.input_index.is_none() && def.includes(val) {
                valid_bits |= 1u32 << i;
            }
            i += 1;
        }
        valid_bits
    }

    /// Whether every value of the ticket may be a value of some field.
    pub fn is_valid_ticket(&self, ticket: &[u32]) -> (b: bool)
        requires
            self.field_defs@.len() <= 32,
        ensures
            b == ticket_ok(field_views(self.field_defs@), ticket@),
    {
        let mut k: usize = 0;
        while k < ticket.len()
            invariant
                self.field_defs@.len() <= 32,
                k <= ticket@.len(),
                forall|j: int|
                    0 <= j < k ==> field_bits(
                        field_views(self.field_defs@),
                        #[trigger] ticket@[j],
                        self.field_defs@.len() as int,
                    ) != 0,
            decreases ticket@.len() - k,
        {
            if self.valid_field_bits(ticket[k]) == 0 {
                return false;
            }
            k += 1;
        }
        true
    }

    /// Keeps those of the tickets nearby that are valid.
    pub fn remove_invalid_tickets(&mut self)
        requires
            old(self).field_defs@.len() <= 32,
        ensures
            final(self).field_defs == old(self).field_defs,
            final(self).my_ticket == old(self).my_ticket,
            ticket_views(final(self).nearby_tickets@) == valid_tickets(
                field_views(old(self).field_defs@),
                ticket_views(old(self).nearby_tickets@),
            ),
    {
        let ghost defs = field_views(self.field_defs@);
        let ghost all = ticket_views(self.nearby_tickets@);
        let mut valid: Vec<Vec<u32>> = Vec::new();
        let mut i: usize = 0;
        proof {
            assert(all.take(0) =~= Seq::<Seq<u32>>::empty());
            assert(ticket_views(valid@) =~= Seq::<Seq<u32>>::empty());
        }
        while i < self.nearby_tickets.len()
            invariant
                self.field_defs == old(self).field_defs,
                self.my_ticket == old(self).my_ticket,
                self.nearby_tickets == old(self).nearby_tickets,
                self.field_defs@.len() <= 32,
                defs == field_views(self.field_defs@),
                all == ticket_views(self.nearby_tickets@),
                i <= self.nearby_tickets@.len(),
                ticket_views(valid@) == valid_tickets(defs, all.take(i as int)),
            decreases self.nearby_tickets@.len() - i,
        {
            let ticket = &self.nearby_tickets[i];
            proof {
                assert(all.take(i + 1).drop_last() =~= all.take(i as int));
                assert(all.take(i + 1).last() == ticket@);
            }
            if self.is_valid_ticket(ticket.as_slice()) {
                let ghost before = ticket_views(valid@);
                let copy = ticket.clone();
                proof {
                    assert(copy@ =~= ticket@);
                }
                valid.push(copy);
                proof {
                    assert(ticket_views(valid@) =~= before.push(ticket@));
                }
            }
            i += 1;
        }
        proof {
            assert(all.take(self.nearby_tickets@.len() as int) =~= all);
        }
        self.nearby_tickets = valid;
    }
}

/// The numbers that the ticket `<number>,<number>,...` holds before its
/// first field that is no number, and whether all its fields are numbers.
pub open spec fn ticket_numbers(fields: Seq<Seq<char>>) -> (Seq<u32>, bool)
    decreases fields.len(),
{
    if fields.len() == 0 {
        (Seq::empty(), true)
    } else {
        let (head, ok) = ticket_numbers(fields.drop_last());
        if !ok {
            (head, false)
        } else {
            match unsigned_within(fields.last(), u32::MAX as nat) {
                Some(n) => (head.push(n as u32), true),
                None => (head, false),
            }
        }
    }
}

/// A comma.
fn comma() -> (r: &'static str)
    ensures
        r@ == seq![','],
{
    proof {
        reveal_strlit(",");
    }
    let r = ",";
    assert(r@ =~= seq![',']);
    r
}

/// Reads a ticket and puts its numbers at the end of `fields`, up to the
/// first field that is no number.
pub fn parse_ticket(s: &str, fields: &mut Vec<u32>) -> (r: Option<()>)
    ensures
        final(fields)@ == old(fields)@ + ticket_numbers(pieces(s@, seq![','])).0,
        r is Some == ticket_numbers(pieces(s@, seq![','])).1,
{
    let parts = split_str(s, comma());
    let ghost texts = str_views(parts@);
    let ghost start = fields@;
    let mut k: usize = 0;
    proof {
        assert(texts.take(0) =~= Seq::<Seq<char>>::empty());
        assert(fields@ =~= start + Seq::<u32>::empty());
    }
    while k < parts.len()
        invariant
            start == old(fields)@,
            texts == str_views(parts@),
            texts == pieces(s@, seq![',']),
            k <= parts@.len(),
            ticket_numbers(texts.take(k as int)).1,
            fields@ == start + ticket_numbers(texts.take(k as int)).0,
        decreases parts@.len() - k,
    {
        proof {
            assert(texts.take(k + 1).drop_last() =~= texts.take(k as int));
            assert(texts.take(k + 1).last() == parts@[k as int]@);
        }
        match u32_of(parts[k]) {
            Some(n) => {
                let ghost before = ticket_numbers(texts.take(k as int)).0;
                fields.push(n);
                proof {
                    assert(fields@ =~= start + before.push(n));
                }
            },
            None => {
                proof {
                    lemma_ticket_stops(texts, k + 1);
                }
                return None;
            },
        }
        k += 1;
    }
    proof {
        assert(texts.take(parts@.len() as int) =~= texts);
    }
    Some(())
}

/// Once a field is no number, the fields after it add nothing.
pub proof fn lemma_ticket_stops(fields: Seq<Seq<char>>, k: int)
    requires
        0 <= k <= fields.len(),
        !ticket_numbers(fields.take(k)).1,
    ensures
        ticket_numbers(fields) == ticket_numbers(fields.take(k)),
    decreases fields.len(),
{
    if k == fields.len() {
        assert(fields.take(k) =~= fields);
    } else {
        assert(fields.drop_last().take(k) =~= fields.take(k));
        lemma_ticket_stops(fields.drop_last(), k);
    }
}

/// The fields are the same but for the columns that belong to them.
pub open spec fn same_fields(a: Seq<FieldView>, b: Seq<FieldView>) -> bool {
    &&& a.len() == b.len()
    &&& forall|i: int|
        0 <= i < a.len() ==> (#[trigger] a[i]).name == b[i].name && a[i].first_range
            == b[i].first_range && a[i].second_range == b[i].second_range
}

/// Each field that has a column now and had no or another one before has
/// a column of my ticket, and every value in that column of the tickets
/// nearby is a value of the field.
pub open spec fn columns_fit(
    before: Seq<FieldView>,
    after: Seq<FieldView>,
    tickets: Seq<Seq<u32>>,
    columns: int,
) -> bool {
    forall|i: int|
        0 <= i < after.len() && (#[trigger] after[i]).input_index != before[i].input_index ==> {
            &&& after[i].input_index is Some
            &&& after[i].input_index->0 < columns
            &&& forall|t: int|
                0 <= t < tickets.len() ==> after[i].includes(
                    (#[trigger] tickets[t])[after[i].input_index->0 as int],
                )
        }
}

/// Gives the column to the field `i`.
fn set_column(defs: &mut Vec<FieldDef>, i: usize, column: u32)
    requires
        i < old(defs)@.len(),
    ensures
        final(defs)@.len() == old(defs)@.len(),
        forall|j: int| 0 <= j < old(defs)@.len() && j != i ==> final(defs)@[j] == old(defs)@[j],
        final(defs)@[i as int]@ == (FieldView {
            input_index: Some(column),
            ..old(defs)@[i as int]@
        }),
{
    let name = defs[i].name.clone();
    let first_range = defs[i].first_range;
    let second_range = defs[i].second_range;
    defs.set(i, FieldDef { name, first_range, second_range, input_index: Some(column) });
}

/// The bits of the columns `0..columns`.
pub open spec fn column_bits(columns: int) -> u32 {
    if 0 <= columns < 32 {
        !(0xFFFF_FFFFu32 << (columns as u32))
    } else {
        0xFFFF_FFFFu32
    }
}

/// The bits of the fields to which the column `c` may belong by the first
/// `t` tickets: those of which every value in the column may be a value.
pub open spec fn candidates(
    defs: Seq<FieldView>,
    tickets: Seq<Seq<u32>>,
    c: int,
    all: u32,
    t: int,
) -> u32
    decreases t,
{
    if t <= 0 {
        all
    } else {
        candidates(defs, tickets, c, all, t - 1) & field_bits(
            defs,
            tickets[t - 1][c],
            defs.len() as int,
        )
    }
}

/// Exactly one bit of `bits` is set.
pub open spec fn is_single(bits: u32) -> bool {
    bits != 0 && bits & ((bits - 1) as u32) == 0
}

/// The fields, with the column `c` given to those of the first `k` fields
/// whose bit is set in `bits`.
pub open spec fn given(defs: Seq<FieldView>, bits: u32, c: u32, columns: int, k: int) -> Seq<
    FieldView,
> {
    Seq::new(
        defs.len(),
        |i: int|
            if i < k && i < columns && i < 32 && has_bit(bits, i as u32) {
                FieldView { input_index: Some(c), ..defs[i] }
            } else {
                defs[i]
            },
    )
}

/// What a round finds.
pub enum Pick {
    /// No column without a field can be told.
    Stuck,
    /// A column without a field may belong to no field.
    Dead,
    /// The column may belong to one field only, whose bit is `fields`.
    Take { column: u32, fields: u32 },
}

/// What a round finds from column `c` on: the first column without a field
/// that may belong to no field or to one field only.
pub open spec fn pick(
    defs: Seq<FieldView>,
    tickets: Seq<Seq<u32>>,
    used: u32,
    all: u32,
    columns: int,
    c: int,
) -> Pick
    decreases columns - c,
{
    if c < 0 || c >= columns || c >= 32 {
        Pick::Stuck
    } else if has_bit(used, c as u32) {
        pick(defs, tickets, used, all, columns, c + 1)
    } else {
        let bits = candidates(defs, tickets, c, all, tickets.len() as int);
        if bits == 0 {
            Pick::Dead
        } else if is_single(bits) {
            Pick::Take { column: c as u32, fields: bits }
        } else {
            pick(defs, tickets, used, all, columns, c + 1)
        }
    }
}

/// The fields after round upon round, from the columns `used` on: each
/// round gives the column it finds to its one field, until every column has
/// a field or a round finds none.
pub open spec fn settled(
    defs: Seq<FieldView>,
    tickets: Seq<Seq<u32>>,
    used: u32,
    all: u32,
    columns: int,
) -> Seq<FieldView>
    decreases all - used,
{
    if used == all || used & !all != 0 {
        defs
    } else {
        match pick(defs, tickets, used, all, columns, 0) {
            Pick::Take { column, fields } => {
                if column < 32 && has_bit(all, column) && !has_bit(used, column) {
                    proof {
                        assert((used | (1u32 << column)) > used && (used | (1u32 << column)) <= all
                            && used <= all) by (bit_vector)
                            requires
                                used & !all == 0,
                                column < 32,
                                (all >> column) & 1 != 0,
                                !((used >> column) & 1 != 0),
                        ;
                    }
                    settled(
                        given(defs, fields, column, columns, columns),
                        tickets,
                        used | (1u32 << column),
                        all,
                        columns,
                    )
                } else {
                    defs
                }
            },
            _ => defs,
        }
    }
}

/// What a round takes is a column of my ticket that has no field yet, and
/// one field only.
pub proof fn lemma_pick_take(
    defs: Seq<FieldView>,
    tickets: Seq<Seq<u32>>,
    used: u32,
    all: u32,
    columns: int,
    c: int,
)
    requires
        0 <= c,
    ensures
        match pick(defs, tickets, used, all, columns, c) {
            Pick::Take { column, fields } => c <= column < columns && column < 32 && !has_bit(
                used,
                column,
            ) && is_single(fields),
            _ => true,
        },
    decreases columns - c,
{
    if c < columns && c < 32 {
        if has_bit(used, c as u32) {
            lemma_pick_take(defs, tickets, used, all, columns, c + 1);
        } else {
            let bits = candidates(defs, tickets, c, all, tickets.len() as int);
            if bits != 0 && !is_single(bits) {
                lemma_pick_take(defs, tickets, used, all, columns, c + 1);
            }
        }
    }
}

/// The field `i` has another column in `after` than in `before`, or has one
/// and had none.
pub open spec fn placed_anew(before: Seq<FieldView>, after: Seq<FieldView>, i: int) -> bool {
    0 <= i < before.len() && i < after.len() && after[i].input_index != before[i].input_index
}

/// The rounds from the columns `used` on give fields only columns that are
/// not among `used`, and no column to two fields.
pub proof fn lemma_settled_columns(
    defs: Seq<FieldView>,
    tickets: Seq<Seq<u32>>,
    used: u32,
    all: u32,
    columns: int,
)
    ensures
        settled(defs, tickets, used, all, columns).len() == defs.len(),
        forall|i: int| #[trigger]
            placed_anew(defs, settled(defs, tickets, used, all, columns), i) ==> {
                let to = settled(defs, tickets, used, all, columns)[i].input_index;
                to is Some && to->0 < 32 && !has_bit(used, to->0)
            },
        forall|i: int, j: int|
            i != j && #[trigger] placed_anew(defs, settled(defs, tickets, used, all, columns), i)
                && #[trigger] placed_anew(defs, settled(defs, tickets, used, all, columns), j)
                ==> settled(defs, tickets, used, all, columns)[i].input_index != settled(
                defs,
                tickets,
                used,
                all,
                columns,
            )[j].input_index,
    decreases all - used,
{
    let after = settled(defs, tickets, used, all, columns);
    if used == all || used & !all != 0 {
    } else {
        lemma_pick_take(defs, tickets, used, all, columns, 0);
        match pick(defs, tickets, used, all, columns, 0) {
            Pick::Take { column, fields } => {
                if column < 32 && has_bit(all, column) && !has_bit(used, column) {
                    let more = used | (1u32 << column);
                    assert(more > used && more <= all && used <= all) by (bit_vector)
                        requires
                            more == used | (1u32 << column),
                            used & !all == 0,
                            column < 32,
                            (all >> column) & 1 != 0,
                            !((used >> column) & 1 != 0),
                    ;
                    let mid = given(defs, fields, column, columns, columns);
                    lemma_settled_columns(mid, tickets, more, all, columns);
                    assert(after == settled(mid, tickets, more, all, columns));
                    assert forall|i: int| #[trigger] placed_anew(defs, after, i) implies ({
                        let to = after[i].input_index;
                        to is Some && to->0 < 32 && !has_bit(used, to->0) && (placed_anew(
                            mid,
                            after,
                            i,
                        ) ==> to->0 != column) && (!placed_anew(mid, after, i) ==> to->0
                            == column && i < 32 && has_bit(fields, i as u32))
                    }) by {
                        if placed_anew(mid, after, i) {
                            let to = after[i].input_index->0;
                            assert(!((used >> to) & 1 != 0) && to != column) by (bit_vector)
                                requires
                                    !(((used | (1u32 << column)) >> to) & 1 != 0),
                                    column < 32,
                                    to < 32,
                            ;
                        }
                    }
                    assert forall|i: int, j: int|
                        i != j && #[trigger] placed_anew(defs, after, i) && #[trigger] placed_anew(
                            defs,
                            after,
                            j,
                        ) implies after[i].input_index != after[j].input_index by {
                        if !placed_anew(mid, after, i) && !placed_anew(mid, after, j) {
                            let a = i as u32;
                            let b = j as u32;
                            assert(a == b) by (bit_vector)
                                requires
                                    fields != 0,
                                    fields & ((fields - 1) as u32) == 0,
                                    a < 32,
                                    b < 32,
                                    (fields >> a) & 1 != 0,
                                    (fields >> b) & 1 != 0,
                            ;
                        }
                    }
                }
            },
            _ => {},
        }
    }
}

/// Of the fields that the rounds give a column, no two have the same.
pub proof fn law_columns_differ(
    defs: Seq<FieldView>,
    tickets: Seq<Seq<u32>>,
    columns: int,
    i: int,
    j: int,
)
    requires
        i != j,
        placed_anew(defs, settled(defs, tickets, 0, column_bits(columns), columns), i),
        placed_anew(defs, settled(defs, tickets, 0, column_bits(columns), columns), j),
    ensures
        settled(defs, tickets, 0, column_bits(columns), columns)[i].input_index != settled(
            defs,
            tickets,
            0,
            column_bits(columns),
            columns,
        )[j].input_index,
{
    lemma_settled_columns(defs, tickets, 0, column_bits(columns), columns);
}

impl Input {
    /// Finds columns for fields: as long as there is a column without a
    /// field of which exactly one field without a column holds all the
    /// values nearby, that column belongs to that field. Ends when every
    /// column has its field, or when no column can be told.
    pub fn set_input_indices(&mut self)
        requires
            old(self).my_ticket@.len() < 32,
            old(self).field_defs@.len() <= 32,
            forall|t: int|
                0 <= t < old(self).nearby_tickets@.len() ==> (#[trigger] old(
                    self,
                ).nearby_tickets@[t])@.len() >= old(self).my_ticket@.len(),
            old(self).nearby_tickets@.len() > 0 || old(self).field_defs@.len() >= old(
                self,
            ).my_ticket@.len(),
        ensures
            final(self).my_ticket == old(self).my_ticket,
            final(self).nearby_tickets == old(self).nearby_tickets,
            field_views(final(self).field_defs@) == settled(
                field_views(old(self).field_defs@),
                ticket_views(old(self).nearby_tickets@),
                0,
                column_bits(old(self).my_ticket@.len() as int),
                old(self).my_ticket@.len() as int,
            ),
            same_fields(field_views(old(self).field_defs@), field_views(final(self).field_defs@)),
            columns_fit(
                field_views(old(self).field_defs@),
                field_views(final(self).field_defs@),
                ticket_views(old(self).nearby_tickets@),
                old(self).my_ticket@.len() as int,
            ),
    {
        let ghost before = field_views(self.field_defs@);
        let ghost tickets = ticket_views(self.nearby_tickets@);
        let field_count = self.my_ticket.len();
        let ghost fc = field_count as int;
        assert(1u32 << (field_count as u32) >= 1 && ((1u32 << (field_count as u32)) - 1) as u32
            == !(0xFFFF_FFFFu32 << (field_count as u32))) by (bit_vector)
            requires
                field_count < 32,
        ;
        let all_input_bits: u32 = (1u32 << field_count) - 1;
        let ghost all = column_bits(fc);
        let ghost goal = settled(before, tickets, 0, all, fc);
        let mut used_input_bits: u32 = 0;
        assert(0u32 & !all_input_bits == 0) by (bit_vector);

        while used_input_bits != all_input_bits
            invariant_except_break
                goal == settled(field_views(self.field_defs@), tickets, used_input_bits, all, fc),
            invariant
                before == field_views(old(self).field_defs@),
                self.my_ticket == old(self).my_ticket,
                self.nearby_tickets == old(self).nearby_tickets,
                field_count == self.my_ticket@.len(),
                fc == field_count,
                field_count < 32,
                self.field_defs@.len() <= 32,
                all_input_bits == all,
                all == column_bits(fc),
                used_input_bits & !all_input_bits == 0,
                tickets == ticket_views(self.nearby_tickets@),
                forall|t: int|
                    0 <= t < tickets.len() ==> (#[trigger] tickets[t]).len() >= field_count,
                tickets.len() > 0 || self.field_defs@.len() >= field_count,
                same_fields(before, field_views(self.field_defs@)),
                columns_fit(before, field_views(self.field_defs@), tickets, field_count as int),
            ensures
                self.my_ticket == old(self).my_ticket,
                self.nearby_tickets == old(self).nearby_tickets,
                same_fields(before, field_views(self.field_defs@)),
                columns_fit(before, field_views(self.field_defs@), tickets, field_count as int),
                goal == field_views(self.field_defs@),
            decreases all_input_bits - used_input_bits,
        {
            assert(used_input_bits <= all_input_bits) by (bit_vector)
                requires
                    used_input_bits & !all_input_bits == 0,
            ;
            let mut assigned_index = false;
            let mut stop = false;
            let ghost used_before = used_input_bits;
            let ghost round_defs = field_views(self.field_defs@);
            let mut input_index: usize = 0;
            while input_index < field_count
                invariant_except_break
                    used_input_bits == used_before,
                    !assigned_index,
                    !stop,
                    field_views(self.field_defs@) == round_defs,
                    pick(round_defs, tickets, used_before, all, fc, 0) == pick(
                        round_defs,
                        tickets,
                        used_before,
                        all,
                        fc,
                        input_index as int,
                    ),
                invariant
                    before == field_views(old(self).field_defs@),
                    self.my_ticket == old(self).my_ticket,
                    self.nearby_tickets == old(self).nearby_tickets,
                    field_count == self.my_ticket@.len(),
                    fc == field_count,
                    field_count < 32,
                    self.field_defs@.len() <= 32,
                    all_input_bits == all,
                    all == column_bits(fc),
                    used_before != all,
                    used_before & !all == 0,
                    used_input_bits & !all_input_bits == 0,
                    tickets == ticket_views(self.nearby_tickets@),
                    forall|t: int|
                        0 <= t < tickets.len() ==> (#[trigger] tickets[t]).len() >= field_count,
                    tickets.len() > 0 || self.field_defs@.len() >= field_count,
                    same_fields(before, field_views(self.field_defs@)),
                    columns_fit(before, field_views(self.field_defs@), tickets, field_count as int),
                    goal == settled(round_defs, tickets, used_before, all, fc),
                    input_index <= field_count,
                ensures
                    self.my_ticket == old(self).my_ticket,
                    self.nearby_tickets == old(self).nearby_tickets,
                    self.field_defs@.len() <= 32,
                    used_input_bits & !all_input_bits == 0,
                    assigned_index ==> used_input_bits > used_before && !stop,
                    !assigned_index ==> used_input_bits == used_before,
                    tickets.len() > 0 || self.field_defs@.len() >= field_count,
                    same_fields(before, field_views(self.field_defs@)),
                    columns_fit(before, field_views(self.field_defs@), tickets, field_count as int),
                    assigned_index ==> goal == settled(
                        field_views(self.field_defs@),
                        tickets,
                        used_input_bits,
                        all,
                        fc,
                    ),
                    !assigned_index ==> goal == field_views(self.field_defs@),
                decreases field_count - input_index,
            {
                if test_bit(used_input_bits, input_index) {
                    input_index += 1;
                    continue;
                }
                // At first the column may belong to any field.
                let mut field_bits: u32 = all_input_bits;
                let ghost defs = field_views(self.field_defs@);
                let mut t: usize = 0;
                while t < self.nearby_tickets.len()
                    invariant
                        self.field_defs@.len() <= 32,
                        defs == field_views(self.field_defs@),
                        tickets == ticket_views(self.nearby_tickets@),
                        t <= self.nearby_tickets@.len(),
                        input_index < field_count,
                        forall|u: int|
                            0 <= u < tickets.len() ==> (#[trigger] tickets[u]).len() >= field_count,
                        t > 0 ==> forall|i: u32|
                            i < 32 && #[trigger] has_bit(field_bits, i) ==> i < defs.len(),
                        forall|i: u32, u: int|
                            #![trigger has_bit(field_bits, i), tickets[u]]
                            i < 32 && has_bit(field_bits, i) && 0 <= u < t ==> may_be(
                                defs,
                                i as int,
                                tickets[u][input_index as int],
                            ),
                        field_bits == candidates(defs, tickets, input_index as int, all, t as int),
                    decreases self.nearby_tickets@.len() - t,
                {
                    let ticket = &self.nearby_tickets[t];
                    proof {
                        assert(tickets[t as int] == ticket@);
                    }
                    let value = ticket[input_index];
                    let bits = self.valid_field_bits(value);
                    let ghost prior = field_bits;
                    field_bits &= bits;
                    proof {
                        assert forall|i: u32| i < 32 && #[trigger] has_bit(field_bits, i) implies has_bit(
                            prior,
                            i,
                        ) && i < defs.len() && may_be(defs, i as int, value) by {
                            assert(((prior & bits) >> i) & 1 != 0 ==> (prior >> i) & 1 != 0 && (bits
                                >> i) & 1 != 0) by (bit_vector);
                            lemma_field_bit(defs, value, defs.len() as int, i);
                        }
                    }
                    t += 1;
                }

                if field_bits == 0 {
                    proof {
                        assert(pick(round_defs, tickets, used_before, all, fc, input_index as int)
                            == Pick::Dead);
                    }
                    stop = true;
                    break;
                }
                // With only one bit set, the column can only belong to that field.
                if (field_bits & (field_bits - 1)) == 0 {
                    proof {
                        assert(is_single(field_bits));
                        assert(pick(round_defs, tickets, used_before, all, fc, input_index as int)
                            == (Pick::Take { column: input_index as u32, fields: field_bits }));
                    }
                    let mut i: usize = 0;
                    proof {
                        assert(field_views(self.field_defs@) =~= given(
                            defs,
                            field_bits,
                            input_index as u32,
                            fc,
                            0,
                        ));
                    }
                    while i < field_count
                        invariant
                            self.my_ticket == old(self).my_ticket,
                            self.nearby_tickets == old(self).nearby_tickets,
                            field_count < 32,
                            fc == field_count,
                            input_index < field_count,
                            i <= field_count,
                            self.field_defs@.len() <= 32,
                            defs.len() == self.field_defs@.len(),
                            same_fields(before, defs),
                            tickets == ticket_views(self.nearby_tickets@),
                            tickets.len() > 0 ==> forall|k: u32|
                                k < 32 && #[trigger] has_bit(field_bits, k) ==> k < defs.len(),
                            forall|k: u32, u: int|
                                #![trigger has_bit(field_bits, k), tickets[u]]
                                k < 32 && has_bit(field_bits, k) && 0 <= u < tickets.len()
                                    ==> may_be(defs, k as int, tickets[u][input_index as int]),
                            tickets.len() > 0 || self.field_defs@.len() >= field_count,
                            same_fields(before, field_views(self.field_defs@)),
                            columns_fit(
                                before,
                                field_views(self.field_defs@),
                                tickets,
                                field_count as int,
                            ),
                            field_views(self.field_defs@) == given(
                                defs,
                                field_bits,
                                input_index as u32,
                                fc,
                                i as int,
                            ),
                        decreases field_count - i,
                    {
                        let ghost prior = field_views(self.field_defs@);
                        if test_bit(field_bits, i) {
                            assert(has_bit(field_bits, i as u32));
                            set_column(&mut self.field_defs, i, input_index as u32);
                            proof {
                                let now = field_views(self.field_defs@);
                                assert(forall|j: int|
                                    0 <= j < now.len() ==> (#[trigger] now[j]) == if j == i {
                                        FieldView {
                                            input_index: Some(input_index as u32),
                                            ..prior[j]
                                        }
                                    } else {
                                        prior[j]
                                    });
                                assert forall|u: int| 0 <= u < tickets.len() implies now[i as int].includes(
                                    (#[trigger] tickets[u])[input_index as int],
                                ) by {
                                    assert(may_be(
                                        defs,
                                        i as int,
                                        tickets[u][input_index as int],
                                    ));
                                }
                            }
                        }
                        proof {
                            assert(field_views(self.field_defs@) =~= given(
                                defs,
                                field_bits,
                                input_index as u32,
                                fc,
                                i + 1,
                            ));
                        }
                        i += 1;
                    }
                    let ghost prior_used = used_input_bits;
                    used_input_bits |= 1u32 << input_index;
                    assert(used_input_bits > prior_used && used_input_bits & !all_input_bits == 0
                        && (all_input_bits >> (input_index as u32)) & 1 != 0) by (bit_vector)
                        requires
                            used_input_bits == prior_used | (1u32 << (input_index as u32)),
                            (prior_used >> (input_index as u32)) & 1 == 0,
                            prior_used & !all_input_bits == 0,
                            all_input_bits == !(0xFFFF_FFFFu32 << (field_count as u32)),
                            input_index < field_count,
                            field_count < 32,
                    ;
                    proof {
                        assert(has_bit(all, input_index as u32));
                        assert(!has_bit(used_before, input_index as u32));
                    }
                    assigned_index = true;
                    break;
                }
                proof {
                    assert(!is_single(field_bits));
                }
                input_index += 1;
            }
            // Without progress there is nothing more to find.
            if !assigned_index {
                break;
            }
            assert(used_input_bits <= all_input_bits) by (bit_vector)
                requires
                    used_input_bits & !all_input_bits == 0,
            ;
        }
    }
}

/// The words `your ticket:`.
pub open spec fn your_ticket_word() -> Seq<char> {
    seq!['y', 'o', 'u', 'r', ' ', 't', 'i', 'c', 'k', 'e', 't', ':']
}

/// The words `nearby tickets:`.
pub open spec fn nearby_word() -> Seq<char> {
    seq!['n', 'e', 'a', 'r', 'b', 'y', ' ', 't', 'i', 'c', 'k', 'e', 't', 's', ':']
}

/// The words `your ticket:`.
fn your_ticket_str() -> (r: &'static str)
    ensures
        r@ == your_ticket_word(),
{
    proof {
        reveal_strlit("your ticket:");
    }
    let r = "your ticket:";
    assert(r@ =~= your_ticket_word());
    r
}

/// The words `nearby tickets:`.
fn nearby_str() -> (r: &'static str)
    ensures
        r@ == nearby_word(),
{
    proof {
        reveal_strlit("nearby tickets:");
    }
    let r = "nearby tickets:";
    assert(r@ =~= nearby_word());
    r
}

/// The line `i` without the white space around it; nothing beyond the
/// last line.
pub open spec fn line_at(lines: Seq<Seq<char>>, i: int) -> Seq<char> {
    if 0 <= i < lines.len() {
        trimmed(lines[i])
    } else {
        Seq::empty()
    }
}

/// The number of lines before the first line that is blank.
pub open spec fn fields_end(lines: Seq<Seq<char>>) -> nat
    decreases lines.len(),
{
    if lines.len() == 0 || trimmed(lines[0]).len() == 0 {
        0
    } else {
        1 + fields_end(lines.drop_first())
    }
}

/// The fields that the lines denote, if each of them denotes one.
pub open spec fn fields_in(lines: Seq<Seq<char>>) -> Option<Seq<FieldView>>
    decreases lines.len(),
{
    if lines.len() == 0 {
        Some(Seq::empty())
    } else {
        match (fields_in(lines.drop_last()), field_of(trimmed(lines.last()))) {
            (Some(defs), Some(f)) => Some(defs.push(f)),
            _ => None,
        }
    }
}

/// The tickets that the lines denote, if each of them denotes one.
pub open spec fn tickets_in(lines: Seq<Seq<char>>) -> Option<Seq<Seq<u32>>>
    decreases lines.len(),
{
    if lines.len() == 0 {
        Some(Seq::empty())
    } else {
        let (numbers, ok) = ticket_numbers(pieces(trimmed(lines.last()), seq![',']));
        match tickets_in(lines.drop_last()) {
            Some(ts) => if ok {
                Some(ts.push(numbers))
            } else {
                None
            },
            None => None,
        }
    }
}

/// What a text holds: fields, my ticket and the tickets nearby.
pub struct InputView {
    pub field_defs: Seq<FieldView>,
    pub my_ticket: Seq<u32>,
    pub nearby_tickets: Seq<Seq<u32>>,
}

impl View for Input {
    type V = InputView;

    /// What the input holds, as sequences.
    open spec fn view(&self) -> InputView {
        InputView {
            field_defs: field_views(self.field_defs@),
            my_ticket: self.my_ticket@,
            nearby_tickets: ticket_views(self.nearby_tickets@),
        }
    }
}

/// The tickets nearby, if the line `q` is their heading: all lines after it.
pub open spec fn nearby_part(lines: Seq<Seq<char>>, q: int) -> Option<Seq<Seq<u32>>> {
    if line_at(lines, q) == nearby_word() {
        tickets_in(lines.skip(q + 1))
    } else {
        Some(Seq::empty())
    }
}

/// What the text holds: fields up to the first blank line; then, under
/// the heading `your ticket:`, my ticket and maybe a blank line; then, under
/// the heading `nearby tickets:`, the tickets nearby. A part without its
/// heading is left empty. A field or a ticket that cannot be read makes the
/// whole text invalid.
pub open spec fn input_of(lines: Seq<Seq<char>>) -> Option<InputView> {
    let k = fields_end(lines) as int;
    match fields_in(lines.take(k)) {
        Some(field_defs) => {
            let p = k + 1;
            if line_at(lines, p) == your_ticket_word() {
                let (my_ticket, ok) = ticket_numbers(pieces(line_at(lines, p + 1), seq![',']));
                let q = if line_at(lines, p + 2).len() == 0 {
                    p + 3
                } else {
                    p + 2
                };
                match nearby_part(lines, q) {
                    Some(nearby_tickets) => if ok {
                        Some(InputView { field_defs, my_ticket, nearby_tickets })
                    } else {
                        None
                    },
                    None => None,
                }
            } else {
                match nearby_part(lines, p) {
                    Some(nearby_tickets) => Some(
                        InputView { field_defs, my_ticket: Seq::empty(), nearby_tickets },
                    ),
                    None => None,
                }
            }
        },
        None => None,
    }
}

/// The fields end at the first blank line.
pub proof fn lemma_fields_end(lines: Seq<Seq<char>>, n: int)
    requires
        0 <= n <= lines.len(),
        forall|i: int| 0 <= i < n ==> trimmed(#[trigger] lines[i]).len() > 0,
        n < lines.len() ==> trimmed(lines[n]).len() == 0,
    ensures
        fields_end(lines) == n,
    decreases n,
{
    if n > 0 {
        let t = lines.drop_first();
        assert forall|i: int| 0 <= i < n - 1 implies trimmed(#[trigger] t[i]).len() > 0 by {
            assert(t[i] == lines[i + 1]);
        }
        assert(trimmed(lines[0]).len() > 0);
        lemma_fields_end(t, n - 1);
    }
}

/// Fields that cannot be read all make for no fields at all.
pub proof fn lemma_fields_fail(lines: Seq<Seq<char>>, k: int)
    requires
        0 <= k <= lines.len(),
        fields_in(lines.take(k)) is None,
    ensures
        fields_in(lines) is None,
    decreases lines.len(),
{
    if k == lines.len() {
        assert(lines.take(k) =~= lines);
    } else {
        assert(lines.drop_last().take(k) =~= lines.take(k));
        lemma_fields_fail(lines.drop_last(), k);
    }
}

/// Tickets that cannot be read all make for no tickets at all.
pub proof fn lemma_tickets_fail(lines: Seq<Seq<char>>, k: int)
    requires
        0 <= k <= lines.len(),
        tickets_in(lines.take(k)) is None,
    ensures
        tickets_in(lines) is None,
    decreases lines.len(),
{
    if k == lines.len() {
        assert(lines.take(k) =~= lines);
    } else {
        assert(lines.drop_last().take(k) =~= lines.take(k));
        lemma_tickets_fail(lines.drop_last(), k);
    }
}

/// The line `i` without the white space around it; nothing beyond the last
/// line.
fn trimmed_line(lines: &Vec<String>, i: usize) -> (r: &str)
    ensures
        r@ == line_at(line_texts(lines@), i as int),
{
    if i < lines.len() {
        trim_str(lines[i].as_str())
    } else {
        let r = "";
        proof {
            reveal_strlit("");
            assert(r@ =~= Seq::<char>::empty());
        }
        r
    }
}

/// Reads the tickets nearby, if the line `q` is their heading.
fn read_nearby(lines: &Vec<String>, q: usize) -> (r: Option<Vec<Vec<u32>>>)
    requires
        q <= lines@.len(),
    ensures
        match r {
            Some(ts) => nearby_part(line_texts(lines@), q as int) == Some(ticket_views(ts@)),
            None => nearby_part(line_texts(lines@), q as int) is None,
        },
{
    let ghost all = line_texts(lines@);
    let mut nearby: Vec<Vec<u32>> = Vec::new();
    proof {
        assert(ticket_views(nearby@) =~= Seq::<Seq<u32>>::empty());
    }
    if !same_text(&chars_of(trimmed_line(lines, q)), nearby_str()) {
        return Some(nearby);
    }
    proof {
        assert(nearby_word().len() == 15);
    }
    let n = lines.len();
    assert(q < n);
    let ghost rest = all.skip(q + 1);
    let mut j: usize = q + 1;
    proof {
        assert(rest.take(0) =~= Seq::<Seq<char>>::empty());
    }
    while j < lines.len()
        invariant
            q < lines@.len(),
            q < j <= lines@.len(),
            all == line_texts(lines@),
            rest == all.skip(q + 1),
            line_at(all, q as int) == nearby_word(),
            tickets_in(rest.take(j - q - 1)) == Some(ticket_views(nearby@)),
        decreases lines@.len() - j,
    {
        let ghost done = rest.take(j - q - 1);
        let ghost more = rest.take(j - q);
        proof {
            assert(more.drop_last() =~= done);
            assert(more.last() == all[j as int]);
            assert(line_at(all, j as int) == trimmed(all[j as int]));
        }
        let mut ticket: Vec<u32> = Vec::new();
        let ok = parse_ticket(trimmed_line(lines, j), &mut ticket);
        proof {
            assert(ticket@ =~= ticket_numbers(pieces(trimmed(all[j as int]), seq![','])).0);
        }
        if ok.is_none() {
            proof {
                lemma_tickets_fail(rest, j - q);
            }
            return None;
        }
        let ghost before = ticket_views(nearby@);
        nearby.push(ticket);
        proof {
            assert(ticket_views(nearby@) =~= before.push(ticket@));
        }
        j += 1;
    }
    proof {
        assert(rest.take(lines@.len() - q - 1) =~= rest);
    }
    Some(nearby)
}

/// Reads the fields, my ticket and the tickets nearby.
pub fn parse_input(lines: &Vec<String>) -> (r: Option<Input>)
    requires
        lines@.len() < usize::MAX - 4,
    ensures
        match r {
            Some(input) => input_of(line_texts(lines@)) == Some(input@),
            None => input_of(line_texts(lines@)) is None,
        },
{
    let ghost all = line_texts(lines@);
    let n = lines.len();
    let mut input = Input::new();
    let mut i: usize = 0;
    proof {
        assert(all.take(0) =~= Seq::<Seq<char>>::empty());
        assert(field_views(input.field_defs@) =~= Seq::<FieldView>::empty());
    }
    while i < n && !trimmed_line(lines, i).is_empty()
        invariant
            n == lines@.len(),
            all == line_texts(lines@),
            i <= n,
            input.my_ticket@.len() == 0,
            input.nearby_tickets@.len() == 0,
            forall|j: int| 0 <= j < i ==> trimmed(#[trigger] all[j]).len() > 0,
            fields_in(all.take(i as int)) == Some(field_views(input.field_defs@)),
        decreases n - i,
    {
        proof {
            assert(all.take(i + 1).drop_last() =~= all.take(i as int));
            assert(all.take(i + 1).last() == all[i as int]);
        }
        match FieldDef::parse(trimmed_line(lines, i)) {
            Some(def) => {
                let ghost before = field_views(input.field_defs@);
                input.field_defs.push(def);
                proof {
                    assert(field_views(input.field_defs@) =~= before.push(def@));
                }
            },
            None => {
                proof {
                    // The fields go on at least as far as this line.
                    lemma_fields_reach(all, i as int);
                    lemma_fields_fail(all.take(fields_end(all) as int), i + 1);
                    assert(all.take(fields_end(all) as int).take(i + 1) =~= all.take(i + 1));
                }
                return None;
            },
        }
        i += 1;
    }
    proof {
        lemma_fields_end(all, i as int);
    }
    let ghost defs = field_views(input.field_defs@);
    let p = i + 1;
    let mut q = p;
    let has_mine = same_text(&chars_of(trimmed_line(lines, p)), your_ticket_str());
    if has_mine {
        let ok = parse_ticket(trimmed_line(lines, p + 1), &mut input.my_ticket);
        proof {
            assert(input.my_ticket@ =~= ticket_numbers(
                pieces(line_at(all, p + 1), seq![',']),
            ).0);
        }
        if ok.is_none() {
            return None;
        }
        q = if trimmed_line(lines, p + 2).is_empty() {
            p + 3
        } else {
            p + 2
        };
    } else {
        proof {
            assert(input.my_ticket@ =~= Seq::<u32>::empty());
        }
    }
    let at = if q <= n {
        q
    } else {
        n
    };
    proof {
        assert(nearby_word().len() == 15);
        assert(line_at(all, n as int) =~= Seq::<char>::empty());
        if q > n {
            assert(line_at(all, q as int) =~= Seq::<char>::empty());
        }
        assert(nearby_part(all, q as int) == nearby_part(all, at as int));
    }
    match read_nearby(lines, at) {
        Some(nearby) => {
            input.nearby_tickets = nearby;
            proof {
                assert(field_views(input.field_defs@) == defs);
                assert(input@.nearby_tickets == nearby_part(all, q as int)->0);
            }
            Some(input)
        },
        None => None,
    }
}

/// Lines that are not blank up to line `i` all belong to the fields.
pub proof fn lemma_fields_reach(lines: Seq<Seq<char>>, i: int)
    requires
        0 <= i < lines.len(),
        forall|j: int| 0 <= j <= i ==> trimmed(#[trigger] lines[j]).len() > 0,
    ensures
        i < fields_end(lines) <= lines.len(),
    decreases i,
{
    assert(trimmed(lines[0]).len() > 0);
    let t = lines.drop_first();
    if i > 0 {
        assert forall|j: int| 0 <= j <= i - 1 implies trimmed(#[trigger] t[j]).len() > 0 by {
            assert(t[j] == lines[j + 1]);
        }
        lemma_fields_reach(t, i - 1);
    } else {
        lemma_fields_upper(t);
    }
}

/// No more field lines than lines.
pub proof fn lemma_fields_upper(lines: Seq<Seq<char>>)
    ensures
        fields_end(lines) <= lines.len(),
    decreases lines.len(),
{
    if lines.len() > 0 && trimmed(lines[0]).len() > 0 {
        lemma_fields_upper(lines.drop_first());
    }
}

} // verus!
