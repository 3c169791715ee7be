use advent_puzzles::boarding::passes_of;
use advent_puzzles::bus::{find_special_time, parse_periods, parse_start_time};
use advent_puzzles::docking::{program_of, Instruction};
use advent_puzzles::seating::{cells_of, Cell, CellError};
use advent_puzzles::ship::direction_fits;
use advent_puzzles::text::{
    chars_of, decimal_string, find, find_char, i32_of, numbers_i32, numbers_u64, same_text, space,
    split, trim, u32_of, u64_of, usize_of,
};

fn lines(text: &[&str]) -> Vec<String> {
    text.iter().map(|s| s.to_string()).collect()
}

#[test]
fn reads_numbers_as_std_does() {
    let cases = [
        "", "0", "7", "+7", "-7", "--7", "+-7", "+", "-", " 7", "7 ", "007", "1_000", "12a",
        "4294967295", "4294967296", "2147483647", "2147483648", "-2147483648", "-2147483649",
        "18446744073709551615", "18446744073709551616", "99999999999999999999999", "٣",
        "+0", "-0",
    ];
    for s in cases {
        assert_eq!(u32_of(s), s.parse::<u32>().ok(), "{:?}", s);
        assert_eq!(u64_of(s), s.parse::<u64>().ok(), "{:?}", s);
        assert_eq!(usize_of(s), s.parse::<usize>().ok(), "{:?}", s);
        assert_eq!(i32_of(s), s.parse::<i32>().ok(), "{:?}", s);
    }
}

#[test]
fn writes_numbers_as_std_does() {
    for n in [0u64, 1, 9, 10, 11, 99, 100, 1234567890, u64::MAX] {
        assert_eq!(decimal_string(n), n.to_string());
        assert_eq!(u64_of(&decimal_string(n)), Some(n));
    }
}

#[test]
fn tells_white_space_as_std_does() {
    for c in (0..=0x11_0000u32).filter_map(char::from_u32) {
        assert_eq!(space(c), c.is_whitespace(), "{:?}", c);
    }
}

#[test]
fn finds_and_splits() {
    let s = chars_of("a, b, c");
    let pat = chars_of(", ");
    assert_eq!(s, vec!['a', ',', ' ', 'b', ',', ' ', 'c']);
    assert_eq!(find(&s, &pat), Some(1));
    assert_eq!(find(&s, &chars_of("")), Some(0));
    assert_eq!(find(&s, &chars_of("x")), None);
    assert_eq!(find(&chars_of("ab"), &chars_of("abc")), None);
    assert_eq!(find_char(&s, 'b'), Some(3));
    assert_eq!(find_char(&s, 'z'), None);
    assert_eq!(split(&s, &pat), vec![vec!['a'], vec!['b'], vec!['c']]);
    assert_eq!(trim(&chars_of("  a b\t")), vec!['a', ' ', 'b']);
    assert_eq!(trim(&chars_of(" \n ")), Vec::<char>::new());
    assert!(same_text(&chars_of("acc"), "acc"));
    assert!(!same_text(&chars_of("acc"), "ac"));
    assert!(!same_text(&chars_of("acc"), "acd"));
}

#[test]
fn reads_lists_of_lines() {
    let text = lines(&["12", "", "x", "-4", "+5", "99999999999"]);
    assert_eq!(numbers_i32(&text), vec![12, -4, 5]);
    assert_eq!(numbers_u64(&text), vec![12, 5, 99999999999]);
    let passes = passes_of(&lines(&["FBFBBFFRLR", "nothing", "BFFFBBFRRR"]));
    assert_eq!(passes.len(), 2);
    assert_eq!(passes[1].id, 567);
    let code = program_of(&lines(&["mem[1] = 2", "?", "mask = 1"]));
    assert_eq!(
        code,
        vec![
            Instruction::Mem { address: 1, value: 2 },
            Instruction::Mask { zero_bits: 0, one_bits: 1 }
        ]
    );
    assert_eq!(parse_start_time("939"), 939);
    assert_eq!(parse_start_time("soon"), 0);
    assert_eq!(parse_periods("7,13,x,x,59,x,31,19"), vec![(0, 7), (1, 13), (4, 59), (6, 31), (7, 19)]);
    assert_eq!(parse_periods(""), Vec::new());
}

#[test]
fn reads_areas() {
    assert_eq!(
        cells_of(&lines(&["L.#", "", "#.L"])),
        Ok((
            vec![Cell::Empty, Cell::Space, Cell::Full, Cell::Full, Cell::Space, Cell::Empty],
            3
        ))
    );
    assert_eq!(cells_of(&lines(&["L.#", "#.L."])), Err(CellError::MismatchedWidths));
    assert_eq!(cells_of(&lines(&["L.#", "#x"])), Err(CellError::InvalidCharacter));
    assert_eq!(cells_of(&lines(&["", "L"])), Ok((vec![Cell::Empty], 1)));
    assert_eq!(cells_of(&Vec::new()), Ok((Vec::new(), 0)));
    assert_eq!(CellError::InvalidCharacter.message(), "invalid character.");
    assert_eq!(CellError::MismatchedWidths.message(), "mismatched line widths.");
}

#[test]
fn tells_directions_that_can_be_read() {
    assert!(direction_fits("F10"));
    assert!(direction_fits(""));
    assert!(direction_fits("F"));
    assert!(direction_fits("F4294967295"));
    assert!(!direction_fits("F4294967296"));
    assert!(!direction_fits("F42949672960x"));
    assert!(direction_fits("F1x99999999999"));
    assert!(direction_fits("S2147483648"));
    assert!(!direction_fits("N2147483648"));
    assert!(!direction_fits("L2147483648"));
    assert!(direction_fits("N2147483648x"));
}

#[test]
fn finds_the_time_at_which_the_buses_line_up() {
    assert_eq!(find_special_time(&[(0, 7), (1, 13), (4, 59), (6, 31), (7, 19)]), Some(1068781));
    assert_eq!(find_special_time(&[(0, 17), (2, 13), (3, 19)]), Some(3417));
    assert_eq!(find_special_time(&[(0, 67), (1, 7), (2, 59), (3, 61)]), Some(754018));
    assert_eq!(find_special_time(&[(0, 1789), (1, 37), (2, 47), (3, 1889)]), Some(1202161486));
    assert_eq!(find_special_time(&[(0, 5)]), Some(0));
    // No time at all: one bus at every even time, one a minute after.
    assert_eq!(find_special_time(&[(0, 2), (0, 4), (1, 2)]), None);
}
