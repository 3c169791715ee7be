use advent_puzzles::tickets::{
    parse_input, parse_ticket, test_bit, FieldDef, Input, Range,
};

fn lines(text: &[&str]) -> Vec<String> {
    text.iter().map(|s| s.to_string()).collect()
}

#[test]
fn reads_ranges_and_fields() {
    assert_eq!(Range::parse("1-3"), Some(Range { min: 1, max: 3 }));
    assert_eq!(Range::parse(" 10 - 30 "), Some(Range::new(10, 30)));
    assert_eq!(Range::parse("13"), None);
    assert_eq!(Range::parse("1-x"), None);
    assert_eq!(Range::parse("-3"), None);
    assert!(Range::new(1, 3).includes(3) && !Range::new(1, 3).includes(4));
    let f = FieldDef::parse("departure location: 1-3 or 5-7").expect("a field");
    assert_eq!(f.name, "departure location");
    assert_eq!(f.first_range, Range::new(1, 3));
    assert_eq!(f.second_range, Range::new(5, 7));
    assert_eq!(f.input_index, None);
    assert!(f.includes(6) && !f.includes(4));
    assert!(FieldDef::parse("class 1-3 or 5-7").is_none());
    assert!(FieldDef::parse("class: 1-3 and 5-7").is_none());
    assert!(FieldDef::parse("class: 1-3 or 5").is_none());
    let g = FieldDef::new("row", Range::new(0, 1), Range::new(2, 3));
    assert_eq!(g.name, "row");
}

#[test]
fn reads_tickets() {
    let mut fields = vec![9];
    assert_eq!(parse_ticket("7,1,14", &mut fields), Some(()));
    assert_eq!(fields, vec![9, 7, 1, 14]);
    assert_eq!(parse_ticket("5,x,6", &mut fields), None);
    assert_eq!(fields, vec![9, 7, 1, 14, 5]);
    assert_eq!(parse_ticket("", &mut fields), None);
    assert!(test_bit(0b10, 1) && !test_bit(0b10, 0));
}

fn sample() -> Input {
    parse_input(&lines(&[
        "class: 1-3 or 5-7",
        "row: 6-11 or 33-44",
        "seat: 13-40 or 45-50",
        "",
        "your ticket:",
        "7,1,14",
        "",
        "nearby tickets:",
        "7,3,47",
        "40,4,50",
        "55,2,20",
        "38,6,12",
    ]))
    .expect("a text")
}

#[test]
fn reads_the_whole_text() {
    let input = sample();
    assert_eq!(input.field_defs.len(), 3);
    assert_eq!(input.field_defs[2].name, "seat");
    assert_eq!(input.my_ticket, vec![7, 1, 14]);
    assert_eq!(input.nearby_tickets.len(), 4);
    assert_eq!(input.nearby_tickets[3], vec![38, 6, 12]);
    assert!(parse_input(&lines(&["class: 1-3 or 5-7", "row"])).is_none());
    assert!(parse_input(&lines(&["", "your ticket:"])).is_none());
    assert!(parse_input(&lines(&["", "nearby tickets:", "1,2", ""])).is_none());
    let bare = parse_input(&lines(&["class: 1-3 or 5-7"])).expect("a text");
    assert_eq!(bare.field_defs.len(), 1);
    assert!(bare.my_ticket.is_empty() && bare.nearby_tickets.is_empty());
    let no_blank = parse_input(&lines(&["", "your ticket:", "1", "nearby tickets:", "2"]))
        .expect("a text");
    assert_eq!(no_blank.my_ticket, vec![1]);
    assert_eq!(no_blank.nearby_tickets, vec![vec![2]]);
    assert!(parse_input(&Vec::new()).is_some());
}

#[test]
fn tells_valid_tickets() {
    let mut input = sample();
    assert_eq!(input.valid_field_bits(7), 0b011);
    assert_eq!(input.valid_field_bits(4), 0);
    assert_eq!(input.valid_field_bits(40), 0b110);
    assert!(input.is_valid_ticket(&[7, 3, 47]));
    assert!(!input.is_valid_ticket(&[40, 4, 50]));
    let mut sum = 0;
    for ticket in &input.nearby_tickets {
        for &field in ticket {
            if input.valid_field_bits(field) == 0 {
                sum += field;
            }
        }
    }
    assert_eq!(sum, 71);
    input.remove_invalid_tickets();
    assert_eq!(input.nearby_tickets, vec![vec![7, 3, 47]]);
}

#[test]
fn finds_the_columns_of_the_fields() {
    let mut input = parse_input(&lines(&[
        "class: 0-1 or 4-19",
        "row: 0-5 or 8-19",
        "seat: 0-13 or 16-19",
        "",
        "your ticket:",
        "11,12,13",
        "",
        "nearby tickets:",
        "3,9,18",
        "15,1,5",
        "5,14,9",
    ]))
    .expect("a text");
    input.remove_invalid_tickets();
    input.set_input_indices();
    assert_eq!(input.field_defs[0].input_index, Some(1));
    assert_eq!(input.field_defs[1].input_index, Some(0));
    assert_eq!(input.field_defs[2].input_index, Some(2));
    assert_eq!(input.my_ticket[1], 12);
    // A field with a column is out of the running.
    assert_eq!(input.valid_field_bits(3), 0);

    // Where no column can be told, nothing is set.
    let mut stuck = parse_input(&lines(&[
        "a: 0-9 or 10-19",
        "b: 0-9 or 10-19",
        "",
        "your ticket:",
        "1,2",
        "",
        "nearby tickets:",
        "3,4",
    ]))
    .expect("a text");
    stuck.set_input_indices();
    assert_eq!(stuck.field_defs[0].input_index, None);
    assert_eq!(stuck.field_defs[1].input_index, None);
}

#[test]
fn no_column_goes_to_two_fields() {
    // The search ends early here; what it has given out differs all the same.
    let mut input = parse_input(&lines(&[
        "a: 0-9 or 20-29",
        "b: 0-19 or 20-29",
        "c: 0-19 or 30-39",
        "d: 0-19 or 30-39",
        "",
        "your ticket:",
        "1,2,3,4",
        "",
        "nearby tickets:",
        "25,15,35,36",
        "5,25,22,31",
        "7,8,12,13",
    ]))
    .expect("a text");
    input.set_input_indices();
    let columns: Vec<Option<u32>> = input.field_defs.iter().map(|f| f.input_index).collect();
    assert_eq!(columns, vec![Some(0), Some(1), None, None]);
    let given: Vec<u32> = columns.iter().flatten().copied().collect();
    for (i, a) in given.iter().enumerate() {
        for b in &given[i + 1..] {
            assert_ne!(a, b);
        }
    }
}
