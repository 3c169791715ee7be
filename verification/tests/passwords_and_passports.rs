use advent_puzzles::passport::{
    count_valid, is_hex_digit, is_valid_eye_color, is_valid_height, is_valid_hex_color,
    is_valid_number, is_valid_passport_id, records_of, Record, FIELD_ALL, FIELD_BYR, FIELD_CID,
    FIELD_REQUIRED,
};
use advent_puzzles::password::{
    is_valid_password, is_valid_password2, parse_line, parse_password_policy, string_to_char,
    PasswordPolicy,
};
use advent_puzzles::text::{split_string, trim_str};

#[test]
fn reads_policies() {
    assert_eq!(
        parse_password_policy("1-3 a"),
        Some(PasswordPolicy { ch: 'a', min_count: 1, max_count: 3 })
    );
    assert_eq!(parse_password_policy("1-3"), None);
    assert_eq!(parse_password_policy("1-3 "), None);
    assert_eq!(parse_password_policy("x-3 a"), None);
    assert_eq!(parse_password_policy("13 a"), None);
    let (policy, password) = parse_line("2-9 c: ccccccccc ").expect("a line");
    assert_eq!(policy, PasswordPolicy { ch: 'c', min_count: 2, max_count: 9 });
    assert_eq!(password, "ccccccccc");
    assert!(parse_line("2-9 c ccccccccc").is_none());
    assert_eq!(string_to_char("abc"), Some('a'));
    assert_eq!(string_to_char(""), None);
    assert_eq!(split_string("a:b:c", ':'), Some(("a", "b:c")));
    assert_eq!(split_string("abc", ':'), None);
}

#[test]
fn holds_passwords_to_policies() {
    let (policy_a, word_a) = parse_line("1-3 a: abcde").expect("a line");
    let (policy_b, word_b) = parse_line("1-3 b: cdefg").expect("a line");
    let (policy_c, word_c) = parse_line("2-9 c: ccccccccc").expect("a line");
    assert!(is_valid_password(&policy_a, word_a));
    assert!(!is_valid_password(&policy_b, word_b));
    assert!(is_valid_password(&policy_c, word_c));
    assert!(is_valid_password2(&policy_a, word_a));
    assert!(!is_valid_password2(&policy_b, word_b));
    assert!(!is_valid_password2(&policy_c, word_c));
    // A place beyond the end.
    assert!(!is_valid_password2(&PasswordPolicy { ch: 'a', min_count: 1, max_count: 9 }, "abc"));
}

#[test]
fn trims_white_space_as_std_does() {
    for s in ["", " ", "  a b \t\n", "\u{a0}x\u{3000}", "é ", "\u{85}\u{2028}"] {
        assert_eq!(trim_str(s), s.trim());
    }
    for c in (0..=0x3100u32).filter_map(char::from_u32) {
        let s = format!("{}x{}", c, c);
        assert_eq!(trim_str(&s), s.trim());
    }
}

#[test]
fn checks_the_fields() {
    assert!(is_valid_number("2002", 1920, 2002));
    assert!(!is_valid_number("2003", 1920, 2002));
    assert!(!is_valid_number("", 0, 10));
    assert!(is_valid_number("+5", 0, 10));
    assert!(is_valid_height("60in"));
    assert!(is_valid_height("190cm"));
    assert!(!is_valid_height("190in"));
    assert!(!is_valid_height("190"));
    assert!(!is_valid_height("cm"));
    assert!(!is_valid_height("1é"));
    assert!(is_valid_hex_color("#123abc"));
    assert!(!is_valid_hex_color("#123abz"));
    assert!(!is_valid_hex_color("123abc"));
    assert!(!is_valid_hex_color("#123ABC"));
    assert!(!is_valid_hex_color("#1234é"));
    assert!(is_hex_digit('f') && !is_hex_digit('g'));
    assert!(is_valid_eye_color("brn"));
    assert!(!is_valid_eye_color("wat"));
    assert!(is_valid_passport_id("000000001"));
    assert!(!is_valid_passport_id("0123456789"));
    assert!(!is_valid_passport_id("00000000a"));
}

#[test]
fn sets_the_flags() {
    let mut rec = Record::new();
    assert!(rec.is_empty());
    rec.set_field("byr", "1937");
    assert_eq!(rec.field_mask, FIELD_BYR);
    rec.set_field("byr", "1");
    assert_eq!(rec.field_mask, FIELD_BYR);
    rec.set_field("cid", "whatever");
    assert_eq!(rec.field_mask, FIELD_BYR | FIELD_CID);
    rec.set_field("xyz", "1");
    assert_eq!(rec.field_mask, FIELD_BYR | FIELD_CID);
    assert!(!rec.is_valid());
    assert_eq!(FIELD_REQUIRED, FIELD_ALL ^ FIELD_CID);
    assert!(Record { field_mask: FIELD_REQUIRED }.is_valid());
}

#[test]
fn reads_the_passports() {
    let lines: Vec<String> = [
        "pid:087499704 hgt:74in ecl:grn iyr:2012 eyr:2030 byr:1980",
        "hcl:#623a2f",
        "",
        "",
        "eyr:1972 cid:100",
        "hcl:#18171d ecl:amb hgt:170 pid:186cm iyr:2018 byr:1926",
        "",
        "oops",
        "",
        "eyr:2029 ecl:blu cid:129 byr:1989",
        "iyr:2014 pid:896056539 hcl:#a97842 hgt:165cm",
    ]
    .iter()
    .map(|s| s.to_string())
    .collect();
    let records = records_of(&lines);
    assert_eq!(records.len(), 3);
    assert!(records[0].is_valid());
    assert!(!records[1].is_valid());
    assert!(records[2].is_valid());
    assert_eq!(records[2].field_mask, FIELD_ALL);
    assert_eq!(count_valid(&records), 2);
}
