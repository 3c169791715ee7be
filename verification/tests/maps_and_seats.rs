use advent_puzzles::answers::{answer_bits, count_answers, count_bits, group_answers};
use advent_puzzles::boarding::{find_seat, max_id, parse_boarding_pass, BoardingPass};
use advent_puzzles::slope::{count_trees, parse_row, MAP_WIDTH};

#[test]
fn counts_trees_on_the_way_down() {
    let rows = [
        "..##.........##.........##.....",
        "#...#...#..#...#...#..#...#...#",
        ".#....#..#..#....#..#..#....#..",
        "..#.#...#.#..#.#...#.#..#.#...#",
        ".#...##..#..#...##..#..#...##..",
        "..#.##.......#.##.......#.##...",
        ".#.#.#....#.#.#.#....#.#.#.#...",
        ".#........#.#........#.#.......",
        "#.##...#...#.##...#...#.##...#.",
        "#...##....##...##....##...##...",
        ".#..#...#.#.#..#...#.#.#..#...#",
    ];
    let map: Vec<u32> = rows.iter().map(|r| parse_row(r).0).collect();
    let first = (1 << 2) | (1 << 3) | (1 << 13) | (1 << 14) | (1 << 24) | (1 << 25);
    assert_eq!(parse_row(rows[0]), (first, MAP_WIDTH));
    assert_eq!(count_trees(&map, 1, 1), 2);
    assert_eq!(count_trees(&map, 3, 1), 7);
    assert_eq!(count_trees(&map, 1, 2), 2);
    // The map repeats after 31 columns.
    assert_eq!(count_trees(&[1, 0, 0, 0, 0, 0, 0, 0, 0, 0, 0, 0, 0, 0, 0, 0, 0, 0, 0, 0, 0, 0, 0, 0,
        0, 0, 0, 0, 0, 0, 0, 1], 1, 1), 2);
    assert_eq!(count_trees(&[1, 1 << 30, 1 << 29], 30, 1), 3);
    assert_eq!(count_trees(&[], 3, 1), 0);
    assert_eq!(parse_row("#x.#"), (0b101, 3));
    assert_eq!(parse_row(""), (0, 0));
}

#[test]
fn finds_seats() {
    assert_eq!(parse_boarding_pass("FBFBBFFRLR"), Some(BoardingPass { id: 357 }));
    assert_eq!(parse_boarding_pass("BFFFBBFRRR"), Some(BoardingPass { id: 567 }));
    assert_eq!(parse_boarding_pass("FFFBBBFRRR"), Some(BoardingPass { id: 119 }));
    assert_eq!(parse_boarding_pass("BBFFBBFRLL"), Some(BoardingPass { id: 820 }));
    assert_eq!(parse_boarding_pass("BBFFBBFRL"), None);
    assert_eq!(parse_boarding_pass("BBFFBBFRLX"), None);
    assert_eq!(parse_boarding_pass(""), None);
    // Once one row is left, going back changes nothing, but going to the front does.
    assert_eq!(parse_boarding_pass("FFFFFFFBRRR"), Some(BoardingPass { id: 7 }));
    assert_eq!(parse_boarding_pass("FFFFFFFFRRR"), None);
    assert_eq!(BoardingPass { id: 9 }.get_id(), 9);
}

#[test]
fn finds_the_free_seat() {
    let passes: Vec<BoardingPass> =
        [3, 4, 6, 7, 9].iter().map(|&id| BoardingPass { id }).collect();
    assert_eq!(max_id(&passes), 9);
    assert_eq!(find_seat(&passes), Some(5));
    let full: Vec<BoardingPass> = [1, 2, 3].iter().map(|&id| BoardingPass { id }).collect();
    assert_eq!(find_seat(&full), None);
    assert_eq!(find_seat(&Vec::new()), None);
    assert_eq!(max_id(&Vec::new()), 0);
}

#[test]
fn counts_bits() {
    assert_eq!(count_bits(0), 0);
    assert_eq!(count_bits(1), 1);
    assert_eq!(count_bits(0b1011_0000), 3);
    assert_eq!(count_bits(u32::MAX), 32);
    for n in [5u32, 77, 1 << 31, 0xdead_beef] {
        assert_eq!(count_bits(n), n.count_ones());
    }
    assert_eq!(count_answers(&[0b111, 0, 0b1, u32::MAX]), 36);
    assert_eq!(count_answers(&[]), 0);
}

#[test]
fn reads_the_answers_of_groups() {
    assert_eq!(answer_bits("abcx"), 0b111 | (1 << 23));
    assert_eq!(answer_bits("A z!"), 1 << 25);
    let lines: Vec<String> =
        ["abc", "", "a", "b", "c", "", "ab", "ac", "", "a", "a", "a", "a", "", "", "b"]
            .iter()
            .map(|s| s.to_string())
            .collect();
    let (any, all) = group_answers(&lines);
    assert_eq!(any, vec![0b111, 0b111, 0b111, 0b1, 0b10]);
    assert_eq!(all, vec![0b111, 0, 0b1, 0b1, 0b10]);
    assert_eq!(count_answers(&any), 11);
    assert_eq!(count_answers(&all), 6);
    assert_eq!(group_answers(&Vec::new()), (Vec::new(), Vec::new()));
}
