use advent_puzzles::cubes::Grid3;
use advent_puzzles::docking::{parse_instruction, run_program, test_bit, Computer, Instruction};
use advent_puzzles::memory_game::GameState;
use advent_puzzles::seating::{
    count_full_cells, get_cell_index, next_frame, next_frame1, next_frame2, run, run_for, Cell,
    Rule,
};

fn cells(rows: &[&str]) -> Vec<Cell> {
    let mut v = Vec::new();
    for row in rows {
        for ch in row.chars() {
            v.push(match ch {
                '.' => Cell::Space,
                'L' => Cell::Empty,
                _ => Cell::Full,
            });
        }
    }
    v
}

const AREA: [&str; 10] = [
    "L.LL.LL.LL",
    "LLLLLLL.LL",
    "L.L.L..L..",
    "LLLL.LL.LL",
    "L.LL.LL.LL",
    "L.LLLLL.LL",
    "..L.L.....",
    "LLLLLLLLLL",
    "L.LLLLLL.L",
    "L.LLLLL.LL",
];

#[test]
fn seats_fill_and_empty_by_their_neighbours() {
    let area = cells(&AREA);
    let mut next = area.clone();
    next_frame1(&area, 10, 10, &mut next);
    assert_eq!(
        next,
        cells(&[
            "#.##.##.##",
            "#######.##",
            "#.#.#..#..",
            "####.##.##",
            "#.##.##.##",
            "#.#####.##",
            "..#.#.....",
            "##########",
            "#.######.#",
            "#.#####.##",
        ])
    );
    let mut third = next.clone();
    next_frame(&next, 10, 10, Rule::Adjacent, &mut third);
    assert_eq!(
        third,
        cells(&[
            "#.LL.L#.##",
            "#LLLLLL.L#",
            "L.L.L..L..",
            "#LLL.LL.L#",
            "#.LL.LL.LL",
            "#.LLLL#.##",
            "..L.L.....",
            "#LLLLLLLL#",
            "#.LLLLLL.L",
            "#.#LLLL.##",
        ])
    );
    assert_eq!(run(&area, 10, Rule::Adjacent), 37);
    assert_eq!(run_for(&area, 10, Rule::Adjacent, 100), Some(37));
    assert_eq!(run_for(&area, 10, Rule::Adjacent, 2), None);
    assert_eq!(count_full_cells(&third), 20);
    assert_eq!(count_full_cells(&[]), 0);
}

fn seen_from(v: &[Cell], width: isize, height: isize, x: isize, y: isize) -> usize {
    let mut count = 0;
    for dy in -1..=1 {
        for dx in -1..=1 {
            if dx == 0 && dy == 0 {
                continue;
            }
            let (mut x1, mut y1) = (x + dx, y + dy);
            while x1 >= 0 && x1 < width && y1 >= 0 && y1 < height {
                let cell = v[(y1 * width + x1) as usize];
                if cell != Cell::Space {
                    if cell == Cell::Full {
                        count += 1;
                    }
                    break;
                }
                x1 += dx;
                y1 += dy;
            }
        }
    }
    count
}

#[test]
fn seats_fill_and_empty_by_what_they_see() {
    // Four full seats in sight are too many.
    let full = cells(&["###", "###", "###"]);
    let mut next = full.clone();
    next_frame2(&full, 3, 3, &mut next);
    assert_eq!(next, cells(&["#L#", "LLL", "#L#"]));
    // Floor is seen through.
    let row = cells(&["#..L"]);
    let mut next = row.clone();
    next_frame2(&row, 4, 1, &mut next);
    assert_eq!(next, cells(&["#..L"]));
    let lone = cells(&["L..L"]);
    let mut next = lone.clone();
    next_frame2(&lone, 4, 1, &mut next);
    assert_eq!(next, cells(&["#..#"]));
    assert_eq!(get_cell_index(10, 3, 2), 23);

    // Frame by frame the same as counting by hand what each seat sees.
    let mut current = cells(&AREA);
    for _ in 0..8 {
        let mut next = current.clone();
        next_frame(&current, 10, 10, Rule::Visible, &mut next);
        for y in 0..10 {
            for x in 0..10 {
                let count = seen_from(&current, 10, 10, x, y);
                let i = (y * 10 + x) as usize;
                let expected = match current[i] {
                    Cell::Space => Cell::Space,
                    Cell::Empty => if count == 0 { Cell::Full } else { Cell::Empty },
                    Cell::Full => if count < 4 { Cell::Full } else { Cell::Empty },
                };
                assert_eq!(next[i], expected);
            }
        }
        current = next;
    }
    let settled = run_for(&cells(&AREA), 10, Rule::Visible, 1000).expect("the area settles");
    assert_eq!(settled, run(&cells(&AREA), 10, Rule::Visible));
}

#[test]
fn cubes_switch_with_their_neighbours() {
    let margin = 7;
    let mut grid = Grid3::new(3 + margin * 2, 3 + margin * 2, 1 + margin * 2);
    for (x, y) in [(1, 0), (2, 1), (0, 2), (1, 2), (2, 2)] {
        grid.set(x + margin, y + margin, margin, true);
    }
    assert!(grid.test(1 + margin, margin, margin));
    assert!(!grid.test(margin, margin, margin));
    assert_eq!(grid.index(1, 2, 3), ((3 * 17) + 2) * 17 + 1);
    assert_eq!(grid.count_active_cells(), 5);
    assert_eq!(grid.count_neighbors_and_self(1 + margin, 1 + margin, margin), 5);
    grid.next_frame();
    assert_eq!(grid.count_active_cells(), 11);
    for _ in 1..6 {
        grid.next_frame();
    }
    assert_eq!(grid.count_active_cells(), 112);
    let empty = Grid3::new(0, 5, 5);
    assert_eq!(empty.count_active_cells(), 0);
    let mut small = Grid3::new(1, 1, 1);
    small.set(0, 0, 0, true);
    small.next_frame();
    // At the edge a cube takes on what the second grid held.
    assert_eq!(small.count_active_cells(), 0);
    small.next_frame();
    assert_eq!(small.count_active_cells(), 1);
}

#[test]
fn reads_instructions_for_the_memory() {
    assert_eq!(
        parse_instruction("mask = XXXXXXXXXXXXXXXXXXXXXXXXXXXXX1XXXX0X"),
        Some(Instruction::Mask { zero_bits: 2, one_bits: 64 })
    );
    assert_eq!(
        parse_instruction("mem[8] = 11"),
        Some(Instruction::Mem { address: 8, value: 11 })
    );
    assert_eq!(parse_instruction("mask = "), Some(Instruction::Mask { zero_bits: 0, one_bits: 0 }));
    assert_eq!(parse_instruction("mask = X2"), None);
    assert_eq!(parse_instruction("mask =1"), None);
    assert_eq!(parse_instruction("mem[8] = "), None);
    assert_eq!(parse_instruction("mem[] = 1"), None);
    assert_eq!(parse_instruction("mem[8]=1"), None);
    assert_eq!(parse_instruction("mem[-8] = 1"), None);
    assert_eq!(parse_instruction("nop"), None);
    assert_eq!(parse_instruction(""), None);
    assert!(test_bit(0b100, 2) && !test_bit(0b100, 1));
}

#[test]
fn writes_values_through_the_masks() {
    let code: Vec<Instruction> = [
        "mask = XXXXXXXXXXXXXXXXXXXXXXXXXXXXX1XXXX0X",
        "mem[8] = 11",
        "mem[7] = 101",
        "mem[8] = 0",
    ]
    .iter()
    .map(|l| parse_instruction(l).expect("an instruction"))
    .collect();
    let computer = run_program(&code, false);
    assert_eq!(computer.memory.len(), 2);
    assert_eq!(computer.memory[&7], 101);
    assert_eq!(computer.memory[&8], 64);
    assert_eq!(computer.memory.values().sum::<u64>(), 165);
    // Before any mask is given, every bit is cleared.
    let mut plain = Computer::new();
    plain.set_mem1(3, 9);
    assert_eq!(plain.memory[&3], 0);
    plain.exec(&Instruction::Mask { zero_bits: 0, one_bits: 4 }, false);
    plain.set_mem1(3, 9);
    assert_eq!(plain.memory[&3], 13);
}

#[test]
fn writes_to_addresses_through_the_masks() {
    let code: Vec<Instruction> = [
        "mask = 000000000000000000000000000000X1001X",
        "mem[42] = 100",
        "mask = 00000000000000000000000000000000X0XX",
        "mem[26] = 1",
    ]
    .iter()
    .map(|l| parse_instruction(l).expect("an instruction"))
    .collect();
    let computer = run_program(&code, true);
    assert_eq!(computer.memory.len(), 10);
    for a in [58, 59] {
        assert_eq!(computer.memory[&a], 100);
    }
    for a in [16, 17, 18, 19, 24, 25, 26, 27] {
        assert_eq!(computer.memory[&a], 1);
    }
    assert_eq!(computer.memory.values().sum::<u64>(), 208);
    // Without floating bits one address is written.
    let mut fixed = Computer::new();
    fixed.exec(&Instruction::Mask { zero_bits: 0xF_FFFF_FFFE, one_bits: 1 }, true);
    fixed.exec(&Instruction::Mem { address: 4, value: 7 }, true);
    assert_eq!(fixed.memory.len(), 1);
    assert_eq!(fixed.memory[&5], 7);
}

#[test]
fn says_how_long_ago() {
    let mut game = GameState::new(&[0, 3, 6]);
    assert_eq!((game.next_index, game.last_number), (3, 6));
    let mut said = Vec::new();
    for _ in 0..7 {
        game.next();
        said.push(game.last_number);
    }
    assert_eq!(said, vec![0, 3, 3, 1, 0, 4, 0]);
    game.advance_to(2020);
    assert_eq!(game.last_number, 436);
    assert_eq!(game.next_index, 2020);
    game.advance_to(5);
    assert_eq!(game.next_index, 2020);
    for (start, last) in [([1, 3, 2], 1), ([2, 1, 3], 10), ([3, 1, 2], 1836)] {
        let mut g = GameState::new(&start);
        g.advance_to(2020);
        assert_eq!(g.last_number, last);
    }
    let mut one = GameState::new(&[7]);
    one.next();
    assert_eq!(one.last_number, 0);
    one.next();
    assert_eq!(one.last_number, 0);
    one.next();
    assert_eq!(one.last_number, 1);
}

use advent_puzzles::cubes::slice_of_lines;

#[test]
fn reads_a_slice_of_cubes() {
    let text = |rows: &[&str]| rows.iter().map(|s| s.to_string()).collect::<Vec<String>>();
    assert_eq!(
        slice_of_lines(&text(&[".#.", "..#", "###"])),
        Some((3, vec![false, true, false, false, false, true, true, true, true]))
    );
    // Reading ends at the first empty line; any other sign is a cube that is off.
    assert_eq!(
        slice_of_lines(&text(&["#x", "y#", "", "###", "#"])),
        Some((2, vec![true, false, false, true]))
    );
    assert_eq!(slice_of_lines(&text(&[])), Some((0, vec![])));
    assert_eq!(slice_of_lines(&text(&["", "##"])), Some((0, vec![])));
    // Rows of different lengths.
    assert_eq!(slice_of_lines(&text(&["##", "#"])), None);
    assert_eq!(slice_of_lines(&text(&["#", "##", ""])), None);
    // A sign of several bytes is one cube.
    assert_eq!(slice_of_lines(&text(&["#é", ".#"])), Some((2, vec![true, false, false, true])));
}
