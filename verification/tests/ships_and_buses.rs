use advent_puzzles::bus::{
    compute_wait, factor, find_best_period, get_common_factors, get_product,
    least_common_multiple, Bus,
};
use advent_puzzles::ship::{
    distance, normalize_angle, parse_direction, parse_int, Direction, Point, Ship, Ship2,
};

#[test]
fn reads_directions() {
    assert_eq!(parse_direction("F10"), Some(Direction::Forward { distance: 10 }));
    assert_eq!(parse_direction("N3"), Some(Direction::Translate { dx: 0, dy: -3 }));
    assert_eq!(parse_direction("S3"), Some(Direction::Translate { dx: 0, dy: 3 }));
    assert_eq!(parse_direction("E3"), Some(Direction::Translate { dx: 3, dy: 0 }));
    assert_eq!(parse_direction("W3"), Some(Direction::Translate { dx: -3, dy: 0 }));
    assert_eq!(parse_direction("R90"), Some(Direction::Rotate { degrees: 90 }));
    assert_eq!(parse_direction("L90"), Some(Direction::Rotate { degrees: 270 }));
    assert_eq!(parse_direction("R450"), Some(Direction::Rotate { degrees: 90 }));
    assert_eq!(parse_direction("X90"), None);
    assert_eq!(parse_direction("F"), None);
    assert_eq!(parse_direction("F1x"), None);
    assert_eq!(parse_direction("F+1"), None);
    assert_eq!(parse_direction(""), None);
    // A number beyond the range of `i32` comes out as the cast gives it.
    assert_eq!(parse_direction("F4294967295"), Some(Direction::Forward { distance: -1 }));
    let chars: Vec<char> = "ab12".chars().collect();
    assert_eq!(parse_int(&chars, 2), Some(12));
    assert_eq!(parse_int(&chars, 1), None);
    assert_eq!(parse_int(&chars, 4), None);
}

#[test]
fn normalizes_angles() {
    assert_eq!(normalize_angle(0), 0);
    assert_eq!(normalize_angle(360), 0);
    assert_eq!(normalize_angle(-90), 270);
    assert_eq!(normalize_angle(-720), 0);
    assert_eq!(normalize_angle(725), 5);
    assert_eq!(normalize_angle(i32::MIN), (i32::MIN).rem_euclid(360));
}

#[test]
fn sails_by_heading() {
    let mut ship = Ship::new();
    for line in ["F10", "N3", "F7", "R90", "F11"] {
        let dir = parse_direction(line).expect("a direction");
        assert!(ship.can_navigate(dir));
        ship.navigate(dir);
    }
    assert_eq!(ship.position, Point { x: 17, y: 8 });
    assert_eq!(ship.heading, 90);
    assert_eq!(distance(ship.position), 25);
    // A heading that is no quarter turn: forward goes nowhere.
    let mut odd = Ship { position: Point { x: 1, y: 2 }, heading: 45 };
    odd.navigate(Direction::Forward { distance: 5 });
    assert_eq!(odd.position, Point { x: 1, y: 2 });
    let far = Ship { position: Point { x: i32::MAX, y: 0 }, heading: 0 };
    assert!(!far.can_navigate(Direction::Forward { distance: 1 }));
    assert!(far.can_navigate(Direction::Forward { distance: -1 }));
}

#[test]
fn sails_by_waypoint() {
    let mut ship = Ship2::new();
    for line in ["F10", "N3", "F7", "R90", "F11"] {
        let dir = parse_direction(line).expect("a direction");
        assert!(ship.can_navigate(dir));
        ship.navigate(dir);
    }
    assert_eq!(ship.position, Point { x: 214, y: 72 });
    assert_eq!(ship.waypoint, Point { x: 4, y: 10 });
    assert_eq!(distance(ship.position), 286);
    let mut turn = Ship2::new();
    turn.navigate(Direction::Rotate { degrees: 180 });
    assert_eq!(turn.waypoint, Point { x: -10, y: 1 });
    turn.navigate(Direction::Rotate { degrees: 270 });
    assert_eq!(turn.waypoint, Point { x: 1, y: 10 });
    turn.navigate(Direction::Rotate { degrees: 45 });
    assert_eq!(turn.waypoint, Point { x: 1, y: 10 });
    let mut big = Ship2::new();
    assert!(!big.can_navigate(Direction::Forward { distance: i32::MAX }));
    big.navigate(Direction::Translate { dx: -10, dy: 1 });
    assert!(big.can_navigate(Direction::Forward { distance: i32::MAX }));
}

#[test]
fn waits_for_buses() {
    assert_eq!(compute_wait(939, 59), 5);
    assert_eq!(compute_wait(59, 59), 59);
    let periods = [(0, 7), (1, 13), (4, 59), (6, 31), (7, 19)];
    assert_eq!(find_best_period(939, &periods), (59, 5));
    assert_eq!(find_best_period(939, &[]), (0, usize::MAX));
    assert_eq!(Bus::compute_nt(1, 13, 0), (1, 12));
    assert_eq!(Bus::compute_nt(0, 7, 0), (0, 0));
    assert_eq!(Bus::compute_nt(4, 59, 100), (2, 114));
    let mut bus = Bus::new(1, 13);
    assert_eq!((bus.n, bus.t), (1, 12));
    assert_eq!(bus.next(13), 25);
    assert_eq!((bus.i, bus.p, bus.n, bus.t), (1, 13, 2, 25));
}

#[test]
fn factors_numbers() {
    assert_eq!(factor(1), Vec::<usize>::new());
    assert_eq!(factor(2), vec![2]);
    assert_eq!(factor(12), vec![2, 2, 3]);
    assert_eq!(factor(97), vec![97]);
    assert_eq!(factor(3 * 3 * 5 * 7 * 7 * 11), vec![3, 3, 5, 7, 7, 11]);
    assert_eq!(factor(1024), vec![2; 10]);
    assert_eq!(factor(4_294_967_291), vec![4_294_967_291]);
    for n in 1..500usize {
        assert_eq!(factor(n).iter().product::<usize>(), n);
    }
    assert_eq!(get_common_factors(&[2, 2, 3], &[2, 3, 3, 5]), vec![2, 2, 3, 3, 5]);
    assert_eq!(get_common_factors(&[], &[7]), vec![7]);
    assert_eq!(get_common_factors(&[7], &[]), vec![7]);
    assert_eq!(get_product(&[2, 2, 3, 3, 5]), 180);
    assert_eq!(get_product(&[]), 1);
    assert_eq!(least_common_multiple(&[(0, 12), (1, 90)]), 180);
    assert_eq!(least_common_multiple(&[(0, 7), (1, 13), (4, 59), (6, 31), (7, 19)]), 3162341);
}

use advent_puzzles::bus::{special_time_fits, try_get_product, try_least_common_multiple};

#[test]
fn products_beyond_the_range_are_told() {
    assert_eq!(try_get_product(&[2, 3, 5]), Some(30));
    assert_eq!(try_get_product(&[usize::MAX, 2]), None);
    assert_eq!(try_get_product(&[]), Some(1));
    assert_eq!(try_least_common_multiple(&[(0, 6), (1, 4)]), Some(12));
    let big = 4_294_967_291usize;
    let other = 4_294_967_279usize;
    if usize::BITS == 64 {
        assert_eq!(try_least_common_multiple(&[(0, big), (1, other)]), Some(big * other));
        assert_eq!(try_least_common_multiple(&[(0, big), (1, other), (2, 7)]), None);
        assert!(!special_time_fits(&[(0, big), (1, other), (2, 7)]));
        assert!(special_time_fits(&[(usize::MAX - 100, 5)]));
        assert!(!special_time_fits(&[(usize::MAX - 10, 5)]));
    }
    assert!(special_time_fits(&[(0, 7), (1, 13), (4, 59), (6, 31), (7, 19)]));
}

use advent_puzzles::bus::{bus_line, find_special_time, try_round, Step};

#[test]
fn a_round_writes_a_line_and_moves_the_buses() {
    let buses: Vec<Bus> = [(0, 7), (1, 13), (4, 59)].iter().map(|&(i, p)| Bus::new(i, p)).collect();
    assert_eq!(bus_line(&buses[1]), "13 * 1 - 1 = 12,");
    let (line, step) = try_round(&buses, 1_000_000);
    assert_eq!(line, "7 * 0 - 0 = 0,13 * 1 - 1 = 12,59 * 1 - 4 = 55,\n");
    // From 55 on: 56 for the first bus, then 64 and 114.
    let next = match step {
        Some(Step::Go(next)) => next,
        _ => panic!("the buses move on"),
    };
    let times: Vec<(usize, usize)> = next.iter().map(|b| (b.n, b.t)).collect();
    assert_eq!(times, vec![(8, 56), (5, 64), (2, 114)]);
    assert!(next.iter().zip(&buses).all(|(a, b)| a.i == b.i && a.p == b.p));
    // The same round with the bound reached.
    match try_round(&buses, 114).1 {
        Some(Step::Over(over)) => assert_eq!(over, next),
        _ => panic!("the search is over"),
    }
    assert!(matches!(try_round(&buses, 115).1, Some(Step::Go(_))));
}

#[test]
fn rounds_lead_to_the_special_time() {
    let periods = [(0, 7), (1, 13), (4, 59), (6, 31), (7, 19)];
    let bound = try_least_common_multiple(&periods).expect("the product fits");
    let mut buses: Vec<Bus> = periods.iter().map(|&(i, p)| Bus::new(i, p)).collect();
    let mut rounds = 0;
    let found = loop {
        let (line, step) = try_round(&buses, bound);
        assert_eq!(line.matches(',').count(), periods.len());
        assert!(line.ends_with(",\n"));
        rounds += 1;
        match step {
            Some(Step::Found(t)) => break Some(t),
            Some(Step::Over(_)) => break None,
            Some(Step::Go(next)) => buses = next,
            None => panic!("the times fit"),
        }
    };
    assert_eq!(found, Some(1068781));
    assert_eq!(found, find_special_time(&periods));
    assert!(rounds > 1);
}

#[test]
fn a_round_that_does_not_fit_is_told() {
    // All buses at one time: found, whatever the range.
    let same = vec![Bus { i: 0, p: usize::MAX, n: 1, t: 5 }, Bus { i: 3, p: 0, n: 0, t: 5 }];
    let (line, step) = try_round(&same, 10);
    assert!(matches!(step, Some(Step::Found(5))));
    assert_eq!(line, format!("{} * 1 - 0 = 5,0 * 0 - 3 = 5,\n", usize::MAX));
    // A period of 0, or a time beyond the range.
    let still = vec![Bus { i: 0, p: 0, n: 0, t: 1 }, Bus { i: 0, p: 2, n: 1, t: 2 }];
    assert!(try_round(&still, 10).1.is_none());
    let far = vec![Bus { i: 0, p: 2, n: 1, t: usize::MAX - 1 }, Bus { i: 0, p: 3, n: 1, t: 3 }];
    let (line, step) = try_round(&far, 10);
    assert!(step.is_none());
    assert_eq!(line, format!("2 * 1 - 0 = {},3 * 1 - 0 = 3,\n", usize::MAX - 1));
    // Without buses nothing is found and nothing moves.
    let (line, step) = try_round(&Vec::new(), 0);
    assert_eq!(line, "\n");
    assert!(matches!(step, Some(Step::Over(v)) if v.is_empty()));
    assert!(matches!(try_round(&Vec::new(), 1).1, Some(Step::Go(v)) if v.is_empty()));
}

#[test]
fn merged_factors_hold_each_prime_as_often_as_the_larger_share() {
    let a = factor(360);
    let b = factor(84);
    let merged = get_common_factors(&a, &b);
    assert_eq!(merged, vec![2, 2, 2, 3, 3, 5, 7]);
    for x in 0..10 {
        let times = |v: &Vec<usize>| v.iter().filter(|&&y| y == x).count();
        assert_eq!(times(&merged), times(&a).max(times(&b)));
    }
}

#[test]
fn the_common_multiple_is_the_least() {
    let lists: [&[(usize, usize)]; 6] = [
        &[(0, 12), (1, 90)],
        &[(0, 4), (0, 6), (0, 10)],
        &[(0, 7), (1, 13)],
        &[(0, 8), (3, 8)],
        &[(0, 1)],
        &[(0, 9), (0, 27), (0, 6), (0, 1)],
    ];
    for periods in lists {
        let lcm = least_common_multiple(periods);
        let least = (1..=lcm).find(|m| periods.iter().all(|&(_, p)| m % p == 0));
        assert_eq!(least, Some(lcm), "{:?}", periods);
        assert_eq!(try_least_common_multiple(periods), Some(lcm));
    }
}

#[test]
fn where_no_time_is_found_there_is_none() {
    let leaves_at = |periods: &[(usize, usize)], t: usize| periods.iter().all(|&(i, p)| (t + i) % p == 0);
    let lists: [&[(usize, usize)]; 5] = [
        &[(0, 2), (0, 4), (1, 2)],
        &[(0, 4), (1, 6)],
        &[(0, 4), (2, 6)],
        &[(0, 3), (1, 5), (2, 15)],
        &[(0, 6), (3, 9), (2, 4)],
    ];
    for periods in lists {
        let first = (0..2000).find(|&t| leaves_at(periods, t));
        assert_eq!(find_special_time(periods), first, "{:?}", periods);
    }
}
