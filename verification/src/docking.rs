//! A memory that is written through bit masks.

use std::collections::HashMap;
use vstd::prelude::*;
use crate::text::{
    chars_of, find_from, first_match, parse_u64, slice_of, unsigned_within,
};

verus! {

/// One instruction: new masks, or a value to write at an address.
#[derive(Clone, Copy, Debug, PartialEq, Eq, Structural)]
pub enum Instruction {
    Mask { zero_bits: u64, one_bits: u64 },
    Mem { address: u64, value: u64 },
}

/// The two masks and the memory.
pub struct Computer {
    pub zero_bits: u64,
    pub one_bits: u64,
    pub memory: HashMap<u64, u64>,
}

/// The 36 bits of an address.
pub const BITMASK: u64 = 0xF_FFFF_FFFF;

/// Whether bit `index` of `bits` is set.
pub fn test_bit(bits: u64, index: u8) -> (b: bool)
    requires
        index < 64,
    ensures
        b == ((bits >> (index as u64)) & 1 != 0),
{
    ((bits >> index) & 1) != 0
}

/// The value that is written by the first version: the bits of the zero
/// mask cleared and the bits of the one mask set.
pub open spec fn masked_value(value: u64, zero_bits: u64, one_bits: u64) -> u64 {
    (value & !zero_bits) | one_bits
}

/// The bits of an address that float: those of the 36 that are in neither mask.
pub open spec fn floating_bits(zero_bits: u64, one_bits: u64) -> u64 {
    !(one_bits | zero_bits) & BITMASK
}

/// The address `a` is one of those that the second version writes to for
/// `address`: it has the bits of the one mask set, and apart from that and
/// from the floating bits it is the same as `address`.
pub open spec fn is_target(a: u64, address: u64, zero_bits: u64, one_bits: u64) -> bool {
    let floating = floating_bits(zero_bits, one_bits);
    (a & !floating) == ((address | one_bits) & !floating)
}

impl Computer {
    /// A computer with empty memory. Its masks clear every bit of a value
    /// in the first version and leave an address as it is in the second.
    pub fn new() -> (c: Computer)
        ensures
            c.zero_bits == u64::MAX,
            c.one_bits == 0,
            c.memory@ == Map::<u64, u64>::empty(),
    {
        Computer { zero_bits: u64::MAX, one_bits: 0, memory: HashMap::new() }
    }

    /// Runs one instruction.
    pub fn exec(&mut self, inst: &Instruction, is_v2: bool)
        ensures
            match *inst {
                Instruction::Mask { zero_bits, one_bits } => {
                    &&& final(self).zero_bits == zero_bits
                    &&& final(self).one_bits == one_bits
                    &&& final(self).memory@ == old(self).memory@
                },
                Instruction::Mem { address, value } => {
                    &&& final(self).zero_bits == old(self).zero_bits
                    &&& final(self).one_bits == old(self).one_bits
                    &&& if is_v2 {
                        final(self).memory@ == masked_write(
                            old(self).memory@,
                            address,
                            value,
                            old(self).zero_bits,
                            old(self).one_bits,
                        )
                    } else {
                        final(self).memory@ == old(self).memory@.insert(
                            address,
                            masked_value(value, old(self).zero_bits, old(self).one_bits),
                        )
                    }
                },
            },
    {
        match inst {
            Instruction::Mask { zero_bits, one_bits } => {
                self.zero_bits = *zero_bits;
                self.one_bits = *one_bits;
            },
            Instruction::Mem { address, value } => {
                if is_v2 {
                    self.set_mem2(*address, *value);
                } else {
                    self.set_mem1(*address, *value);
                }
            },
        }
    }

    /// Writes the value, changed by the masks, at the address.
    pub fn set_mem1(&mut self, address: u64, value: u64)
        ensures
            final(self).zero_bits == old(self).zero_bits,
            final(self).one_bits == old(self).one_bits,
            final(self).memory@ == old(self).memory@.insert(
                address,
                masked_value(value, old(self).zero_bits, old(self).one_bits),
            ),
    {
        broadcast use vstd::std_specs::hash::group_hash_axioms;

        let val = (value & !self.zero_bits) | self.one_bits;
        self.memory.insert(address, val);
    }

    /// Writes the value at the addresses that the masks make of the
    /// address: the bits of the one mask are set, and the floating bits
    /// take on every combination.
    pub fn set_mem2(&mut self, address: u64, value: u64)
        ensures
            final(self).zero_bits == old(self).zero_bits,
            final(self).one_bits == old(self).one_bits,
            final(self).memory@ == masked_write(
                old(self).memory@,
                address,
                value,
                old(self).zero_bits,
                old(self).one_bits,
            ),
    {
        broadcast use vstd::std_specs::hash::group_hash_axioms;

        let ghost before = self.memory@;
        let ghost zero = self.zero_bits;
        let ghost one = self.one_bits;
        let addr = address | self.one_bits;
        let floating = !(self.one_bits | self.zero_bits) & BITMASK;
        assert(floating & !0xF_FFFF_FFFFu64 == 0) by (bit_vector)
            requires
                floating == !(one | zero) & 0xF_FFFF_FFFFu64,
        ;
        if floating == 0 {
            self.memory.insert(addr, value);
            proof {
                assert forall|a: u64| is_target(a, address, zero, one) <==> a == addr by {
                    assert((a & !0u64) == a) by (bit_vector);
                    assert((addr & !0u64) == addr) by (bit_vector);
                }
            }
        } else {
            let mut bit_indices: [u8; 64] = [0u8; 64];
            let mut bit_count: u8 = 0;
            let mut i: u8 = 0;
            assert(floating & !(0xFFFF_FFFF_FFFF_FFFFu64 << 0) == 0) by (bit_vector);
            while i < 64
                invariant
                    i <= 64,
                    bit_count <= i,
                    bit_count <= 36,
                    floating & !BITMASK == 0,
                    forall|k: int|
                        0 <= k < bit_count ==> (#[trigger] bit_indices@[k]) < 36 && (floating >> (
                        bit_indices@[k] as u64)) & 1 != 0,
                    bit_count as int <= if i <= 36 {
                        i as int
                    } else {
                        36
                    },
                    mask_of(bit_indices@, bit_count as int) == floating & low_bits(i),
                decreases 64 - i,
            {
                let ghost mask = mask_of(bit_indices@, bit_count as int);
                let ghost lo = low_bits(i);
                let ghost hi = low_bits((i + 1) as u8);
                proof {
                    if i < 63 {
                        assert(((floating >> (i as u64)) & 1 != 0 ==> (floating & lo) | (1u64 << (
                        i as u64)) == floating & hi) && ((floating >> (i as u64)) & 1 == 0 ==> (
                        floating & lo) == floating & hi)) by (bit_vector)
                            requires
                                i < 63,
                                lo == !(0xFFFF_FFFF_FFFF_FFFFu64 << (i as u64)),
                                hi == !(0xFFFF_FFFF_FFFF_FFFFu64 << ((i + 1) as u64)),
                        ;
                    } else {
                        assert(((floating >> (i as u64)) & 1 != 0 ==> (floating & lo) | (1u64 << (
                        i as u64)) == floating & hi) && ((floating >> (i as u64)) & 1 == 0 ==> (
                        floating & lo) == floating & hi)) by (bit_vector)
                            requires
                                i == 63,
                                lo == !(0xFFFF_FFFF_FFFF_FFFFu64 << 63),
                                hi == 0xFFFF_FFFF_FFFF_FFFFu64,
                        ;
                    }
                }
                if test_bit(floating, i) {
                    assert(i < 36) by (bit_vector)
                        requires
                            (floating >> (i as u64)) & 1 != 0,
                            floating & !0xF_FFFF_FFFFu64 == 0,
                            i < 64,
                    ;
                    let ghost prior = bit_indices@;
                    bit_indices[bit_count as usize] = i;
                    proof {
                        lemma_mask_kept(prior, bit_indices@, bit_count as int);
                    }
                    bit_count += 1;
                }
                i += 1;
            }
            assert(floating & 0xFFFF_FFFF_FFFF_FFFFu64 == floating) by (bit_vector);
            assert(1u64 << (bit_count as u64) >= 1) by (bit_vector)
                requires
                    bit_count <= 36,
            ;
            let ghost idx = bit_indices@;
            let combos: u64 = 1u64 << bit_count;
            let mut combo: u64 = 0;
            while combo < combos
                invariant
                    self.zero_bits == zero,
                    self.one_bits == one,
                    floating == floating_bits(zero, one),
                    addr == address | one,
                    bit_count <= 36,
                    bit_indices@ == idx,
                    forall|k: int|
                        0 <= k < bit_count ==> (#[trigger] idx[k]) < 36 && (floating >> (
                        idx[k] as u64)) & 1 != 0,
                    combos >= 1,
                    forall|c: u64|
                        c < combo ==> self.memory@.contains_key(
                            addr ^ #[trigger] flipped_by(idx, c, bit_count as int),
                        ) && self.memory@[addr ^ flipped_by(idx, c, bit_count as int)] == value,
                    forall|a: u64| #[trigger]
                        self.memory@.contains_key(a) ==> (before.contains_key(a)
                            && self.memory@[a] == before[a]) || (self.memory@[a] == value
                            && is_target(a, address, zero, one)),
                    forall|a: u64| before.contains_key(a) ==> #[trigger] self.memory@.contains_key(a),
                decreases combos - combo,
            {
                let mut flipped: u64 = 0;
                let mut j: u8 = 0;
                assert(0u64 & !floating == 0) by (bit_vector);
                while j < bit_count
                    invariant
                        j <= bit_count <= 36,
                        bit_indices@ == idx,
                        forall|k: int|
                            0 <= k < bit_count ==> (#[trigger] idx[k]) < 36 && (floating >> (
                            idx[k] as u64)) & 1 != 0,
                        flipped & !floating == 0,
                        flipped == flipped_by(idx, combo, j as int),
                    decreases bit_count - j,
                {
                    if test_bit(combo, j) {
                        let index = bit_indices[j as usize];
                        let ghost prior = flipped;
                        flipped |= 1u64 << index;
                        assert(flipped & !floating == 0) by (bit_vector)
                            requires
                                flipped == prior | (1u64 << (index as u64)),
                                prior & !floating == 0,
                                (floating >> (index as u64)) & 1 != 0,
                                index < 36,
                        ;
                    }
                    j += 1;
                }
                let target = addr ^ flipped;
                assert((target & !floating) == (addr & !floating)) by (bit_vector)
                    requires
                        target == addr ^ flipped,
                        flipped & !floating == 0,
                ;
                self.memory.insert(target, value);
                combo += 1;
            }
            proof {
                let k = bit_count as int;
                assert forall|a: u64| is_target(a, address, zero, one) implies #[trigger] self.memory@.contains_key(
                    a,
                ) && self.memory@[a] == value by {
                    let s = a ^ addr;
                    let c = combo_for(idx, s, k);
                    lemma_combo_bits(idx, s, k, 0);
                    lemma_flipped(idx, s, k, k);
                    assert((s & floating) == s && (addr ^ s) == a) by (bit_vector)
                        requires
                            s == a ^ addr,
                            (a & !floating) == (addr & !floating),
                    ;
                    assert(flipped_by(idx, c, k) == s);
                }
            }
        }
        proof {
            assert(self.memory@ =~= masked_write(before, address, value, zero, one));
        }
    }
}

/// The bits below bit `i`.
pub open spec fn low_bits(i: u8) -> u64 {
    if i >= 64 {
        0xFFFF_FFFF_FFFF_FFFFu64
    } else {
        !(0xFFFF_FFFF_FFFF_FFFFu64 << (i as u64))
    }
}

/// The bits whose places are the first `k` of `idx`.
pub open spec fn mask_of(idx: Seq<u8>, k: int) -> u64
    decreases k,
{
    if k <= 0 {
        0
    } else {
        mask_of(idx, k - 1) | (1u64 << (idx[k - 1] as u64))
    }
}

/// The bits that the combination `combo` flips: the bit at the place
/// `idx[j]` for each of the first `k` bits `j` of `combo` that is set.
pub open spec fn flipped_by(idx: Seq<u8>, combo: u64, k: int) -> u64
    decreases k,
{
    if k <= 0 {
        0
    } else if (combo >> ((k - 1) as u64)) & 1 != 0 {
        flipped_by(idx, combo, k - 1) | (1u64 << (idx[k - 1] as u64))
    } else {
        flipped_by(idx, combo, k - 1)
    }
}

/// The combination that flips the bits of `s`: bit `j` is set, for `j`
/// below `k`, if the bit of `s` at the place `idx[j]` is.
pub open spec fn combo_for(idx: Seq<u8>, s: u64, k: int) -> u64
    decreases k,
{
    if k <= 0 {
        0
    } else if (s >> (idx[k - 1] as u64)) & 1 != 0 {
        combo_for(idx, s, k - 1) | (1u64 << ((k - 1) as u64))
    } else {
        combo_for(idx, s, k - 1)
    }
}

/// The bits of the first places do not change with the places after them.
pub proof fn lemma_mask_kept(idx: Seq<u8>, other: Seq<u8>, k: int)
    requires
        forall|j: int| 0 <= j < k ==> idx[j] == other[j],
    ensures
        mask_of(idx, k) == mask_of(other, k),
    decreases k,
{
    if k > 0 {
        lemma_mask_kept(idx, other, k - 1);
    }
}

/// The combination for `s` lies below 2 to the power `k`, and its bit `j`
/// is that of `s` at the place `idx[j]`.
pub proof fn lemma_combo_bits(idx: Seq<u8>, s: u64, k: int, j: u64)
    requires
        0 <= k <= 63,
        j < 64,
        forall|t: int| 0 <= t < k ==> (#[trigger] idx[t]) < 64,
    ensures
        combo_for(idx, s, k) < (1u64 << (k as u64)),
        j < k ==> (((combo_for(idx, s, k) >> j) & 1 != 0) <==> ((s >> (idx[j as int] as u64)) & 1
            != 0)),
        j >= k ==> (combo_for(idx, s, k) >> j) & 1 == 0,
    decreases k,
{
    if k == 0 {
        assert(0u64 < (1u64 << 0u64) && (0u64 >> j) & 1 == 0) by (bit_vector);
    } else {
        lemma_combo_bits(idx, s, k - 1, j);
        let c = combo_for(idx, s, k - 1);
        let q = (k - 1) as u64;
        let next = (q + 1) as u64;
        assert(c < (1u64 << next) && (c | (1u64 << q)) < (1u64 << next) && ((((c | (1u64 << q))
            >> j) & 1 != 0) <==> (((c >> j) & 1 != 0) || j == q))) by (bit_vector)
            requires
                c < (1u64 << q),
                q < 63,
                next == q + 1,
                j < 64,
        ;
        if j == q {
            lemma_combo_bits(idx, s, k - 1, q);
        }
    }
}

/// The combination for `s` flips the bits of `s` at the places of `idx`.
pub proof fn lemma_flipped(idx: Seq<u8>, s: u64, k: int, j: int)
    requires
        0 <= j <= k <= 63,
        forall|t: int| 0 <= t < k ==> (#[trigger] idx[t]) < 64,
    ensures
        flipped_by(idx, combo_for(idx, s, k), j) == s & mask_of(idx, j),
    decreases j,
{
    let c = combo_for(idx, s, k);
    if j == 0 {
        assert(s & 0 == 0) by (bit_vector);
    } else {
        lemma_flipped(idx, s, k, j - 1);
        lemma_combo_bits(idx, s, k, (j - 1) as u64);
        let m = mask_of(idx, j - 1);
        let p = idx[j - 1] as u64;
        assert(((s >> p) & 1 != 0 ==> (s & m) | (1u64 << p) == s & (m | (1u64 << p))) && ((s >> p)
            & 1 == 0 ==> (s & m) == s & (m | (1u64 << p)))) by (bit_vector)
            requires
                p < 64,
        ;
    }
}

/// The memory after the second version has written: the value stands at
/// every address that the masks make of the address, and the rest of the
/// memory is as it was.
pub open spec fn masked_write(
    before: Map<u64, u64>,
    address: u64,
    value: u64,
    zero_bits: u64,
    one_bits: u64,
) -> Map<u64, u64> {
    Map::new(
        |a: u64| is_target(a, address, zero_bits, one_bits) || before.contains_key(a),
        |a: u64|
            if is_target(a, address, zero_bits, one_bits) {
                value
            } else {
                before[a]
            },
    )
}

/// The words `mask = `.
pub open spec fn mask_word() -> Seq<char> {
    seq!['m', 'a', 's', 'k', ' ', '=', ' ']
}

/// The word `mem[`.
pub open spec fn mem_word() -> Seq<char> {
    seq!['m', 'e', 'm', '[']
}

/// The word `] = `.
pub open spec fn is_word() -> Seq<char> {
    seq![']', ' ', '=', ' ']
}

/// The masks that the characters denote, read from the highest bit down:
/// `0` is a bit of the zero mask, `1` one of the one mask, and `X` of
/// neither. Any other character makes the masks invalid.
pub open spec fn masks_of(s: Seq<char>) -> Option<(u64, u64)>
    decreases s.len(),
{
    if s.len() == 0 {
        Some((0, 0))
    } else {
        match masks_of(s.drop_last()) {
            Some((zero, one)) => if s.last() == 'X' {
                Some((zero << 1, one << 1))
            } else if s.last() == '0' {
                Some(((zero << 1) | 1, one << 1))
            } else if s.last() == '1' {
                Some((zero << 1, (one << 1) | 1))
            } else {
                None
            },
            None => None,
        }
    }
}

/// `s` begins with `word`.
pub open spec fn begins_with(s: Seq<char>, word: Seq<char>) -> bool {
    s.len() >= word.len() && s.take(word.len() as int) == word
}

/// The instruction that the line denotes: `mask = ` and the bits of the
/// masks, or `mem[<address>] = <value>`.
pub open spec fn instruction_of(line: Seq<char>) -> Option<Instruction> {
    if begins_with(line, mask_word()) {
        match masks_of(line.skip(7)) {
            Some((zero_bits, one_bits)) => Some(Instruction::Mask { zero_bits, one_bits }),
            None => None,
        }
    } else if begins_with(line, mem_word()) {
        match first_match(line, is_word()) {
            Some(i) => if i >= 4 {
                match (
                    unsigned_within(line.subrange(4, i), u64::MAX as nat),
                    unsigned_within(line.skip(i + 4), u64::MAX as nat),
                ) {
                    (Some(address), Some(value)) => Some(
                        Instruction::Mem { address: address as u64, value: value as u64 },
                    ),
                    _ => None,
                }
            } else {
                None
            },
            None => None,
        }
    } else {
        None
    }
}

/// Whether `s` begins with `word`.
fn starts_with(s: &Vec<char>, word: &Vec<char>) -> (r: bool)
    ensures
        r == begins_with(s@, word@),
{
    if s.len() < word.len() {
        return false;
    }
    let mut i: usize = 0;
    while i < word.len()
        invariant
            word@.len() <= s@.len(),
            i <= word@.len(),
            forall|j: int| 0 <= j < i ==> s@[j] == word@[j],
        decreases word@.len() - i,
    {
        if s[i] != word[i] {
            proof {
                assert(s@.take(word@.len() as int)[i as int] == s@[i as int]);
            }
            return false;
        }
        i += 1;
    }
    proof {
        assert(s@.take(word@.len() as int) =~= word@);
    }
    true
}

/// Once the beginning of the characters denotes no masks, the whole does not.
pub proof fn lemma_masks_fail(s: Seq<char>, k: int)
    requires
        0 <= k <= s.len(),
        masks_of(s.take(k)) is None,
    ensures
        masks_of(s) is None,
    decreases s.len(),
{
    if k == s.len() {
        assert(s.take(k) =~= s);
    } else {
        assert(s.drop_last().take(k) =~= s.take(k));
        lemma_masks_fail(s.drop_last(), k);
    }
}

/// Reads one instruction.
pub fn parse_instruction(line: &str) -> (r: Option<Instruction>)
    ensures
        r == instruction_of(line@),
{
    let chars = chars_of(line);
    let mask: Vec<char> = vec!['m', 'a', 's', 'k', ' ', '=', ' '];
    let mem1: Vec<char> = vec!['m', 'e', 'm', '['];
    let mem2: Vec<char> = vec![']', ' ', '=', ' '];
    proof {
        assert(mask@ =~= mask_word());
        assert(mem1@ =~= mem_word());
        assert(mem2@ =~= is_word());
    }
    if starts_with(&chars, &mask) {
        let mut zero_bits: u64 = 0;
        let mut one_bits: u64 = 0;
        let ghost rest = chars@.skip(7);
        let mut i: usize = 7;
        proof {
            assert(rest.take(0) =~= Seq::<char>::empty());
        }
        while i < chars.len()
            invariant
                chars@ == line@,
                begins_with(chars@, mask_word()),
                7 <= i <= chars@.len(),
                rest == chars@.skip(7),
                masks_of(rest.take(i - 7)) == Some((zero_bits, one_bits)),
            decreases chars@.len() - i,
        {
            proof {
                assert(rest.take(i - 7 + 1).drop_last() =~= rest.take(i - 7));
                assert(rest.take(i - 7 + 1).last() == chars@[i as int]);
            }
            zero_bits <<= 1;
            one_bits <<= 1;
            let ch = chars[i];
            if ch == 'X' {
            } else if ch == '0' {
                zero_bits |= 1;
            } else if ch == '1' {
                one_bits |= 1;
            } else {
                proof {
                    lemma_masks_fail(rest, i - 7 + 1);
                }
                return None;
            }
            i += 1;
        }
        proof {
            assert(rest.take(chars@.len() - 7) =~= rest);
        }
        return Some(Instruction::Mask { zero_bits, one_bits });
    } else if starts_with(&chars, &mem1) {
        if let Some(i) = find_from(&chars, &mem2, 0) {
            if i >= 4 {
                let n = chars.len();
                assert(i + 4 <= n);
                let address_field = slice_of(&chars, 4, i);
                let value_field = slice_of(&chars, i + 4, n);
                proof {
                    assert(value_field@ =~= chars@.skip(i + 4));
                }
                if let Some(address) = parse_u64(&address_field) {
                    if let Some(value) = parse_u64(&value_field) {
                        return Some(Instruction::Mem { address, value });
                    }
                }
            }
        }
    }
    None
}

/// The masks and the memory after the first `k` instructions have run.
pub open spec fn memory_after(code: Seq<Instruction>, is_v2: bool, k: int) -> (
    u64,
    u64,
    Map<u64, u64>,
)
    decreases k,
{
    if k <= 0 {
        (u64::MAX, 0, Map::empty())
    } else {
        let (zero, one, memory) = memory_after(code, is_v2, k - 1);
        match code[k - 1] {
            Instruction::Mask { zero_bits, one_bits } => (zero_bits, one_bits, memory),
            Instruction::Mem { address, value } => (
                zero,
                one,
                if is_v2 {
                    masked_write(memory, address, value, zero, one)
                } else {
                    memory.insert(address, masked_value(value, zero, one))
                },
            ),
        }
    }
}

/// The computer after the instructions have run, one after the other.
pub fn run_program(code: &[Instruction], is_v2: bool) -> (c: Computer)
    ensures
        (c.zero_bits, c.one_bits, c.memory@) == memory_after(code@, is_v2, code@.len() as int),
{
    let mut computer = Computer::new();
    let mut i: usize = 0;
    while i < code.len()
        invariant
            i <= code@.len(),
            (computer.zero_bits, computer.one_bits, computer.memory@) == memory_after(
                code@,
                is_v2,
                i as int,
            ),
        decreases code@.len() - i,
    {
        computer.exec(&code[i], is_v2);
        i += 1;
    }
    computer
}

/// The instructions that the lines denote, in order; lines that denote
/// none are passed over.
pub open spec fn program_in(lines: Seq<Seq<char>>) -> Seq<Instruction>
    decreases lines.len(),
{
    if lines.len() == 0 {
        Seq::empty()
    } else {
        match instruction_of(lines.last()) {
            Some(inst) => program_in(lines.drop_last()).push(inst),
            None => program_in(lines.drop_last()),
        }
    }
}

/// Reads the instructions.
pub fn program_of(lines: &Vec<String>) -> (v: Vec<Instruction>)
    ensures
        v@ == program_in(crate::text::line_texts(lines@)),
{
    let ghost all = crate::text::line_texts(lines@);
    let mut v: Vec<Instruction> = Vec::new();
    let mut i: usize = 0;
    proof {
        assert(all.take(0) =~= Seq::<Seq<char>>::empty());
    }
    while i < lines.len()
        invariant
            all == crate::text::line_texts(lines@),
            i <= lines@.len(),
            v@ == program_in(all.take(i as int)),
        decreases lines@.len() - i,
    {
        proof {
            assert(all.take(i + 1).drop_last() =~= all.take(i as int));
            assert(all.take(i + 1).last() == lines@[i as int]@);
        }
        if let Some(inst) = parse_instruction(lines[i].as_str()) {
            v.push(inst);
        }
        i += 1;
    }
    proof {
        assert(all.take(lines@.len() as int) =~= all);
    }
    v
}

} // verus!
