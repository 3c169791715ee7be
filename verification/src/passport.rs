//! Passports: which of their fields are there and hold what they should.

use vstd::prelude::*;
use crate::text::{
    all_digits, chars_of, is_digit, parse_u32, pieces, slice_of, split_first,
    split_str, split_string, str_views, unsigned_within,
};

verus! {

/// The flag of the birth year.
pub const FIELD_BYR: u8 = 0x01;

/// The flag of the issue year.
pub const FIELD_IYR: u8 = 0x02;

/// The flag of the expiration year.
pub const FIELD_EYR: u8 = 0x04;

/// The flag of the height.
pub const FIELD_HGT: u8 = 0x08;

/// The flag of the hair color.
pub const FIELD_HCL: u8 = 0x10;

/// The flag of the eye color.
pub const FIELD_ECL: u8 = 0x20;

/// The flag of the passport id.
pub const FIELD_PID: u8 = 0x40;

/// The flag of the country id.
pub const FIELD_CID: u8 = 0x80;

/// The flags of all fields.
pub const FIELD_ALL: u8 = 0xFF;

/// The flags of the fields that a passport needs: all but the country id.
pub const FIELD_REQUIRED: u8 = 0x7F;

/// A passport: the flags of its valid fields.
#[derive(Clone, Copy, Debug, PartialEq, Eq, Structural)]
pub struct Record {
    pub field_mask: u8,
}

/// `s` denotes a number from `lo` to `hi`.
pub open spec fn number_within(s: Seq<char>, lo: u32, hi: u32) -> bool {
    match unsigned_within(s, u32::MAX as nat) {
        Some(n) => lo <= n <= hi,
        None => false,
    }
}

/// `s` is nine digits.
pub open spec fn passport_id_ok(s: Seq<char>) -> bool {
    s.len() == 9 && all_digits(s)
}

/// `s` is a number and a unit: from 150 to 193 `cm`, or from 59 to 76 `in`.
pub open spec fn height_ok(s: Seq<char>) -> bool {
    s.len() > 2 && {
        let value = s.take(s.len() - 2);
        let units = s.skip(s.len() - 2);
        ||| units == seq!['c', 'm'] && number_within(value, 150, 193)
        ||| units == seq!['i', 'n'] && number_within(value, 59, 76)
    }
}

/// `c` is a digit or a letter from `a` to `f`.
pub open spec fn hex_digit(c: char) -> bool {
    ('0' <= c <= '9') || ('a' <= c <= 'f')
}

/// `s` is `#` and six hexadecimal digits.
pub open spec fn hex_color_ok(s: Seq<char>) -> bool {
    s.len() == 7 && s[0] == '#' && forall|i: int| 1 <= i < 7 ==> hex_digit(#[trigger] s[i])
}

/// `s` is one of the seven eye colors.
pub open spec fn eye_color_ok(s: Seq<char>) -> bool {
    ||| s == seq!['a', 'm', 'b']
    ||| s == seq!['b', 'l', 'u']
    ||| s == seq!['b', 'r', 'n']
    ||| s == seq!['g', 'r', 'y']
    ||| s == seq!['g', 'r', 'n']
    ||| s == seq!['h', 'z', 'l']
    ||| s == seq!['o', 't', 'h']
}

/// The flag that the field `name` with the value `value` sets: that of the
/// field if the value is valid for it, and none for an unknown field.
pub open spec fn field_bit(name: Seq<char>, value: Seq<char>) -> u8 {
    if name == seq!['b', 'y', 'r'] {
        if number_within(value, 1920, 2002) {
            FIELD_BYR
        } else {
            0
        }
    } else if name == seq!['i', 'y', 'r'] {
        if number_within(value, 2010, 2020) {
            FIELD_IYR
        } else {
            0
        }
    } else if name == seq!['e', 'y', 'r'] {
        if number_within(value, 2020, 2030) {
            FIELD_EYR
        } else {
            0
        }
    } else if name == seq!['h', 'g', 't'] {
        if height_ok(value) {
            FIELD_HGT
        } else {
            0
        }
    } else if name == seq!['h', 'c', 'l'] {
        if hex_color_ok(value) {
            FIELD_HCL
        } else {
            0
        }
    } else if name == seq!['e', 'c', 'l'] {
        if eye_color_ok(value) {
            FIELD_ECL
        } else {
            0
        }
    } else if name == seq!['p', 'i', 'd'] {
        if passport_id_ok(value) {
            FIELD_PID
        } else {
            0
        }
    } else if name == seq!['c', 'i', 'd'] {
        FIELD_CID
    } else {
        0
    }
}

/// Whether `s` is the two characters.
fn is_word2(s: &Vec<char>, a: char, b: char) -> (r: bool)
    ensures
        r == (s@ == seq![a, b]),
{
    let r = s.len() == 2 && s[0] == a && s[1] == b;
    proof {
        if r {
            assert(s@ =~= seq![a, b]);
        } else if s@.len() == 2 {
            assert(seq![a, b][0] == a && seq![a, b][1] == b);
        } else {
            assert(seq![a, b].len() == 2);
        }
    }
    r
}

/// Whether `s` is the three characters.
fn is_word3(s: &Vec<char>, a: char, b: char, c: char) -> (r: bool)
    ensures
        r == (s@ == seq![a, b, c]),
{
    let r = s.len() == 3 && s[0] == a && s[1] == b && s[2] == c;
    proof {
        if r {
            assert(s@ =~= seq![a, b, c]);
        } else if s@.len() == 3 {
            assert(seq![a, b, c][0] == a && seq![a, b, c][1] == b && seq![a, b, c][2] == c);
        } else {
            assert(seq![a, b, c].len() == 3);
        }
    }
    r
}

/// Whether `s` denotes a number from `min_value` to `max_value`.
fn number_in(s: &Vec<char>, min_value: u32, max_value: u32) -> (r: bool)
    ensures
        r == number_within(s@, min_value, max_value),
{
    if let Some(n) = parse_u32(s) {
        return n >= min_value && n <= max_value;
    }
    false
}

/// Whether `s` denotes a number from `min_value` to `max_value`.
pub fn is_valid_number(s: &str, min_value: u32, max_value: u32) -> (r: bool)
    ensures
        r == number_within(s@, min_value, max_value),
{
    number_in(&chars_of(s), min_value, max_value)
}

/// Whether `s` is nine digits.
pub fn is_valid_passport_id(s: &str) -> (r: bool)
    ensures
        r == passport_id_ok(s@),
{
    let chars = chars_of(s);
    let mut digits: usize = 0;
    while digits < chars.len()
        invariant
            chars@ == s@,
            digits <= chars@.len(),
            forall|i: int| 0 <= i < digits ==> is_digit(#[trigger] chars@[i]),
        decreases chars@.len() - digits,
    {
        let ch = chars[digits];
        if ch >= '0' && ch <= '9' {
            digits += 1;
        } else {
            return false;
        }
    }
    digits == 9
}

/// Whether `s` is a height: a number and `cm` or `in`.
pub fn is_valid_height(s: &str) -> (r: bool)
    ensures
        r == height_ok(s@),
{
    let chars = chars_of(s);
    if chars.len() > 2 {
        let i = chars.len() - 2;
        let units = slice_of(&chars, i, chars.len());
        let value = slice_of(&chars, 0, i);
        proof {
            assert(units@ =~= s@.skip(i as int));
            assert(value@ =~= s@.take(i as int));
        }
        return if is_word2(&units, 'c', 'm') {
            number_in(&value, 150, 193)
        } else if is_word2(&units, 'i', 'n') {
            number_in(&value, 59, 76)
        } else {
            false
        };
    }
    false
}

/// Whether `ch` is a digit or a letter from `a` to `f`.
pub fn is_hex_digit(ch: char) -> (r: bool)
    ensures
        r == hex_digit(ch),
{
    (ch >= '0' && ch <= '9') || (ch >= 'a' && ch <= 'f')
}

/// Whether `s` is `#` and six hexadecimal digits.
pub fn is_valid_hex_color(s: &str) -> (r: bool)
    ensures
        r == hex_color_ok(s@),
{
    let chars = chars_of(s);
    if chars.len() != 7 {
        return false;
    }
    if chars[0] != '#' {
        return false;
    }
    let mut i: usize = 1;
    while i < 7
        invariant
            chars@ == s@,
            chars@.len() == 7,
            1 <= i <= 7,
            forall|k: int| 1 <= k < i ==> hex_digit(#[trigger] chars@[k]),
        decreases 7 - i,
    {
        if !is_hex_digit(chars[i]) {
            return false;
        }
        i += 1;
    }
    true
}

/// Whether `s` is one of the seven eye colors.
fn eye_color_in(s: &Vec<char>) -> (r: bool)
    ensures
        r == eye_color_ok(s@),
{
    is_word3(s, 'a', 'm', 'b') || is_word3(s, 'b', 'l', 'u') || is_word3(s, 'b', 'r', 'n')
        || is_word3(s, 'g', 'r', 'y') || is_word3(s, 'g', 'r', 'n') || is_word3(s, 'h', 'z', 'l')
        || is_word3(s, 'o', 't', 'h')
}

/// Whether `s` is one of the seven eye colors.
pub fn is_valid_eye_color(s: &str) -> (r: bool)
    ensures
        r == eye_color_ok(s@),
{
    eye_color_in(&chars_of(s))
}

impl Record {
    /// Whether no field is there.
    pub fn is_empty(&self) -> (r: bool)
        ensures
            r == (self.field_mask == 0),
    {
        self.field_mask == 0
    }

    /// Whether every field that a passport needs is there and valid.
    pub fn is_valid(&self) -> (r: bool)
        ensures
            r == ((self.field_mask & FIELD_REQUIRED) == FIELD_REQUIRED),
    {
        (self.field_mask & FIELD_REQUIRED) == FIELD_REQUIRED
    }

    /// A passport without fields.
    pub fn new() -> (r: Record)
        ensures
            r.field_mask == 0,
    {
        Record { field_mask: 0 }
    }

    /// Sets the flag of the field `name` if `value` is valid for it.
    pub fn set_field(&mut self, name: &str, value: &str)
        ensures
            final(self).field_mask == old(self).field_mask | field_bit(name@, value@),
    {
        let n = chars_of(name);
        let v = chars_of(value);
        let ghost before = self.field_mask;
        assert(before | 0 == before) by (bit_vector);
        if is_word3(&n, 'b', 'y', 'r') {
            if number_in(&v, 1920, 2002) {
                self.field_mask |= FIELD_BYR;
            }
        } else if is_word3(&n, 'i', 'y', 'r') {
            if number_in(&v, 2010, 2020) {
                self.field_mask |= FIELD_IYR;
            }
        } else if is_word3(&n, 'e', 'y', 'r') {
            if number_in(&v, 2020, 2030) {
                self.field_mask |= FIELD_EYR;
            }
        } else if is_word3(&n, 'h', 'g', 't') {
            if is_valid_height(value) {
                self.field_mask |= FIELD_HGT;
            }
        } else if is_word3(&n, 'h', 'c', 'l') {
            if is_valid_hex_color(value) {
                self.field_mask |= FIELD_HCL;
            }
        } else if is_word3(&n, 'e', 'c', 'l') {
            if eye_color_in(&v) {
                self.field_mask |= FIELD_ECL;
            }
        } else if is_word3(&n, 'p', 'i', 'd') {
            if is_valid_passport_id(value) {
                self.field_mask |= FIELD_PID;
            }
        } else if is_word3(&n, 'c', 'i', 'd') {
            self.field_mask |= FIELD_CID;
        }
    }
}

/// The flags after the fields `fields` have been set: each field is a name,
/// a colon and a value; what holds no colon is passed over.
pub open spec fn mask_after(mask: u8, fields: Seq<Seq<char>>) -> u8
    decreases fields.len(),
{
    if fields.len() == 0 {
        mask
    } else {
        let m = mask_after(mask, fields.drop_last());
        match split_first(fields.last(), seq![':']) {
            Some((name, value)) => m | field_bit(name, value),
            None => m,
        }
    }
}

/// What has been read of the passports: those that are complete, and the
/// flags of the one that is being read.
pub struct Batch {
    pub done: Seq<Record>,
    pub mask: u8,
}

/// The passports after the lines `lines`: a line that is not empty holds
/// fields of a passport, with single blanks between them, and an empty line
/// ends the passport. A passport without any valid field is not kept.
pub open spec fn batch_after(lines: Seq<Seq<char>>) -> Batch
    decreases lines.len(),
{
    if lines.len() == 0 {
        Batch { done: Seq::empty(), mask: 0 }
    } else {
        let b = batch_after(lines.drop_last());
        let line = lines.last();
        if line.len() != 0 {
            Batch { done: b.done, mask: mask_after(b.mask, pieces(line, seq![' '])) }
        } else if b.mask != 0 {
            Batch { done: b.done.push(Record { field_mask: b.mask }), mask: 0 }
        } else {
            b
        }
    }
}

/// The passports that the lines hold.
pub open spec fn records_in(lines: Seq<Seq<char>>) -> Seq<Record> {
    let b = batch_after(lines);
    if b.mask != 0 {
        b.done.push(Record { field_mask: b.mask })
    } else {
        b.done
    }
}

/// A blank.
fn blank() -> (r: &'static str)
    ensures
        r@ == seq![' '],
{
    proof {
        reveal_strlit(" ");
    }
    let r = " ";
    assert(r@ =~= seq![' ']);
    r
}

/// Reads the passports that the lines hold.
pub fn records_of(lines: &Vec<String>) -> (v: Vec<Record>)
    ensures
        v@ == records_in(crate::text::line_texts(lines@)),
{
    let ghost all = crate::text::line_texts(lines@);
    let mut v: Vec<Record> = Vec::new();
    let mut rec = Record::new();
    let mut i: usize = 0;
    proof {
        assert(all.take(0) =~= Seq::<Seq<char>>::empty());
    }
    while i < lines.len()
        invariant
            all == crate::text::line_texts(lines@),
            i <= lines@.len(),
            batch_after(all.take(i as int)) == (Batch { done: v@, mask: rec.field_mask }),
        decreases lines@.len() - i,
    {
        proof {
            assert(all.take(i + 1).drop_last() =~= all.take(i as int));
            assert(all.take(i + 1).last() == lines@[i as int]@);
        }
        let s = lines[i].as_str();
        if !s.is_empty() {
            let fields = split_str(s, blank());
            let ghost texts = str_views(fields@);
            let ghost start = rec.field_mask;
            let mut k: usize = 0;
            proof {
                assert(texts.take(0) =~= Seq::<Seq<char>>::empty());
            }
            while k < fields.len()
                invariant
                    texts == str_views(fields@),
                    k <= fields@.len(),
                    rec.field_mask == mask_after(start, texts.take(k as int)),
                decreases fields@.len() - k,
            {
                proof {
                    assert(texts.take(k + 1).drop_last() =~= texts.take(k as int));
                    assert(texts.take(k + 1).last() == fields@[k as int]@);
                }
                if let Some((name, value)) = split_string(fields[k], ':') {
                    rec.set_field(name, value);
                }
                k += 1;
            }
            proof {
                assert(texts.take(fields@.len() as int) =~= texts);
            }
        } else if !rec.is_empty() {
            v.push(rec);
            rec = Record::new();
        }
        i += 1;
    }
    proof {
        assert(all.take(lines@.len() as int) =~= all);
    }
    if !rec.is_empty() {
        v.push(rec);
    }
    v
}

/// The number of the passports that are valid.
pub open spec fn valid_among(records: Seq<Record>) -> nat
    decreases records.len(),
{
    if records.len() == 0 {
        0
    } else {
        valid_among(records.drop_last()) + if (records.last().field_mask & FIELD_REQUIRED)
            == FIELD_REQUIRED {
            1nat
        } else {
            0nat
        }
    }
}

/// Counts the passports that are valid.
pub fn count_valid(records: &Vec<Record>) -> (n: usize)
    ensures
        n == valid_among(records@),
{
    let mut valid_count: usize = 0;
    let mut i: usize = 0;
    proof {
        assert(records@.take(0) =~= Seq::<Record>::empty());
    }
    while i < records.len()
        invariant
            i <= records@.len(),
            valid_count <= i,
            valid_count == valid_among(records@.take(i as int)),
        decreases records@.len() - i,
    {
        proof {
            assert(records@.take(i + 1).drop_last() =~= records@.take(i as int));
            assert(records@.take(i + 1).last() == records@[i as int]);
        }
        if records[i].is_valid() {
            valid_count += 1;
        }
        i += 1;
    }
    proof {
        assert(records@.take(records@.len() as int) =~= records@);
    }
    valid_count
}

} // verus!
