use advent_puzzles::bag_rules::{count_children, try_count_children, RuleList};
use advent_puzzles::text::{split2, split_str, trim_from};

fn lines(text: &[&str]) -> Vec<String> {
    text.iter().map(|s| s.to_string()).collect()
}

fn sample() -> RuleList {
    RuleList::from_lines(&lines(&[
        "light red bags contain 1 bright white bag, 2 muted yellow bags.",
        "dark orange bags contain 3 bright white bags, 4 muted yellow bags.",
        "bright white bags contain 1 shiny gold bag.",
        "muted yellow bags contain 2 shiny gold bags, 9 faded blue bags.",
        "shiny gold bags contain 1 dark olive bag, 2 vibrant plum bags.",
        "dark olive bags contain 3 faded blue bags, 4 dotted black bags.",
        "vibrant plum bags contain 5 faded blue bags, 6 dotted black bags.",
        "faded blue bags contain no other bags.",
        "dotted black bags contain no other bags.",
    ]))
    .expect("the list has room")
}

#[test]
fn colors_are_numbered_as_they_come_up() {
    let rules = sample();
    assert_eq!(rules.count(), 9);
    assert_eq!(rules.get_color(0).name(), "light red");
    assert_eq!(rules.get_color(1).name(), "bright white");
    assert_eq!(rules.get_color(2).name(), "muted yellow");
    assert_eq!(rules.get_color(3).name(), "dark orange");
    assert_eq!(rules.get_color(4).name(), "shiny gold");
    assert_eq!(rules.get_color(4).index(), 4);
    let gold = rules.find_color("shiny gold").expect("the color is there");
    assert_eq!(gold.index(), 4);
    assert_eq!(gold.name(), "shiny gold");
    assert!(rules.find_color("shiny silver").is_none());
}

#[test]
fn contents_come_last_added_first() {
    let rules = sample();
    let gold = rules.find_color("shiny gold").expect("the color is there");
    let mut it = gold.children();
    let first = it.next().expect("two kinds of bags inside");
    assert_eq!(first.get_count(), 2);
    assert_eq!(first.get_color().name(), "vibrant plum");
    let second = it.next().expect("two kinds of bags inside");
    assert_eq!(second.get_count(), 1);
    assert_eq!(second.get_color().name(), "dark olive");
    assert!(it.next().is_none());
    assert!(it.next().is_none());
}

#[test]
fn counts_the_colors_that_hold_a_color() {
    let rules = sample();
    let gold = rules.find_color("shiny gold").expect("the color is there");
    let mut contains_count = 0;
    for index in 0..rules.count() {
        if rules.get_color(index).contains_color(gold.index()) {
            contains_count += 1;
        }
    }
    assert_eq!(contains_count, 4);
    assert!(!gold.contains_color(gold.index()));
    assert!(gold.contains_color(rules.find_color("faded blue").expect("there").index()));
}

#[test]
fn counts_the_bags_inside() {
    let rules = sample();
    let gold = rules.find_color("shiny gold").expect("the color is there");
    assert_eq!(count_children(&gold), 32);
    assert_eq!(try_count_children(&gold), Some(32));
    let blue = rules.find_color("faded blue").expect("the color is there");
    assert_eq!(count_children(&blue), 0);

    let deep = RuleList::from_lines(&lines(&[
        "shiny gold bags contain 2 dark red bags.",
        "dark red bags contain 2 dark orange bags.",
        "dark orange bags contain 2 dark yellow bags.",
        "dark yellow bags contain 2 dark green bags.",
        "dark green bags contain 2 dark blue bags.",
        "dark blue bags contain 2 dark violet bags.",
        "dark violet bags contain no other bags.",
    ]))
    .expect("the list has room");
    assert_eq!(count_children(&deep.find_color("shiny gold").expect("there")), 126);
}

#[test]
fn a_count_beyond_the_range_is_not_given() {
    let rules = RuleList::from_lines(&lines(&[
        "a bags contain 4294967295 b bags.",
        "b bags contain 1 c bag.",
        "c bags contain no other bags.",
    ]))
    .expect("the list has room");
    assert_eq!(try_count_children(&rules.find_color("a").expect("there")), None);
    assert_eq!(try_count_children(&rules.find_color("b").expect("there")), Some(1));
}

#[test]
fn lines_without_the_words_say_nothing() {
    let mut rules = RuleList::empty();
    rules.add_rule("light red bags hold 1 bright white bag.");
    assert_eq!(rules.count(), 0);
    rules.add_rule("light red bags contain 1 bright white bag, x muted yellow bags, 3.");
    assert_eq!(rules.count(), 2);
    assert_eq!(rules.free(), 0xFFFF_FFFF - 2);
    assert_eq!(RuleList::demand_of("light red bags contain 1 bright white bag, x, 3."), 4);
    assert_eq!(RuleList::demand_of("nothing"), 0);
    assert!(rules.nests(0) && rules.nests(1));
}

#[test]
fn bags_that_hold_themselves_are_told() {
    let rules = RuleList::from_lines(&lines(&[
        "a bags contain 1 b bag.",
        "b bags contain 2 c bags, 1 d bag.",
        "c bags contain 1 a bag.",
        "d bags contain no other bags.",
        "e bags contain 3 d bags.",
        "f bags contain 1 f bag.",
        "g bags contain 1 e bag, 1 a bag.",
    ]))
    .expect("the list has room");
    let nests: Vec<bool> = (0..rules.count()).map(|c| rules.nests(c)).collect();
    assert_eq!(nests, vec![false, false, false, true, true, false, false]);
    let e = rules.find_color("e").expect("there");
    let d = rules.find_color("d").expect("there");
    assert!(e.contains_color(d.index()));
    assert!(!d.contains_color(e.index()));
    assert_eq!(try_count_children(&e), Some(3));
}

#[test]
fn splits_at_the_first_delimiter() {
    assert_eq!(split2("a, b, c", ", "), Some(("a", "b, c")));
    assert_eq!(split2("abc", ", "), None);
    assert_eq!(split2("abc", "abc"), Some(("", "")));
    assert_eq!(split2("é=ü", "="), Some(("é", "ü")));
    assert_eq!(trim_from("bright white bags", " bag"), "bright white");
    assert_eq!(trim_from("bright white", " bag"), "bright white");
    assert_eq!(split_str("1 a, 2 b, 3 c", ", "), vec!["1 a", "2 b", "3 c"]);
    assert_eq!(split_str("", ", "), vec![""]);
    assert_eq!(split_str(", ", ", "), vec!["", ""]);
    assert_eq!(split_str("a,,b", ","), "a,,b".split(',').collect::<Vec<_>>());
    assert_eq!(split_str("aaa", "aa"), "aaa".split("aa").collect::<Vec<_>>());
}

#[test]
fn a_name_leads_back_to_its_color() {
    // No name occurs twice, however often a color is named in the lines.
    let rules = sample();
    for index in 0..rules.count() {
        let name = rules.get_color(index).name().to_string();
        let found = rules.find_color(&name).expect("the color is there");
        assert_eq!(found.index(), index);
    }
    let again = RuleList::from_lines(&lines(&[
        "dim red bags contain 1 dim red bag, 2 pale blue bags.",
        "pale blue bags contain 3 dim red bags.",
        "dim red bags contain 4 pale blue bags.",
    ]))
    .expect("the list has room");
    assert_eq!(again.count(), 2);
    assert_eq!(again.find_color("dim red").expect("the color is there").index(), 0);
    assert_eq!(again.find_color("pale blue").expect("the color is there").index(), 1);
}
