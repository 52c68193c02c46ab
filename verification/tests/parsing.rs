use configster::get_ver;
use configster::parse_line;
use configster::parse_lines;
use configster::OptionProperties;

#[test]
fn test_parse_line() {
    // Test with no attributes
    assert_eq!(
        parse_line("Option = /home/foo", ',', 0),
        ("Option".to_string(), "/home/foo".to_string(), vec![])
    );

    // Test with 5 attributes and several spaces
    assert_eq!(
        parse_line("Option=/home/foo , another  ,   test,1,2,3", ',', 0),
        (
            "Option".to_string(),
            "/home/foo".to_string(),
            vec![
                "another".to_string(),
                "test".to_string(),
                "1".to_string(),
                "2".to_string(),
                "3".to_string()
            ]
        )
    );

    // Test with leading '#' sign
    assert_eq!(
        parse_line("#Option = /home/foo", ',', 0),
        ("".to_string(), "".to_string(), vec![])
    );

    // Test with two attributes, a single space after the commas
    assert_eq!(
        parse_line("Option = /home/foo, removable, test", ',', 0),
        (
            "Option".to_string(),
            "/home/foo".to_string(),
            vec!["removable".to_string(), "test".to_string()]
        )
    );

    // Test for blank line
    assert_eq!(
        parse_line("        ", ',', 0),
        ("".to_string(), "".to_string(), vec![])
    );

    // Test for whitespace in Option
    assert_eq!(
        parse_line("Option  /home/foo", ',', 28),
        (
            "InvalidOption_on_Line28".to_string(),
            "".to_string(),
            vec![]
        )
    );

    // Test for '=' after Option has already been marked as invalid.
    assert_eq!(
        parse_line("Option  /home/foo = value", ',', 9),
        ("InvalidOption_on_Line9".to_string(), "".to_string(), vec![])
    );
}

#[test]
fn test_skip_lines() {
    assert_eq!(parse_line("", ',', 1), ("".to_string(), "".to_string(), vec![]));
    assert_eq!(parse_line("   \t  ", ';', 2), ("".to_string(), "".to_string(), vec![]));
    assert_eq!(parse_line("# a comment", ',', 3), ("".to_string(), "".to_string(), vec![]));
    assert_eq!(
        parse_line("   # indented comment", ',', 4),
        ("".to_string(), "".to_string(), vec![])
    );
}

#[test]
fn test_invalid_key_any_delimiter() {
    assert_eq!(
        parse_line("bad key = value", ',', 7),
        ("InvalidOption_on_Line7".to_string(), "".to_string(), vec![])
    );
    assert_eq!(
        parse_line("bad key = value", ';', 7),
        ("InvalidOption_on_Line7".to_string(), "".to_string(), vec![])
    );
    assert_eq!(
        parse_line("bad\tkey", '|', 0),
        ("InvalidOption_on_Line0".to_string(), "".to_string(), vec![])
    );
    assert_eq!(
        parse_line("spaced out", ',', 120),
        ("InvalidOption_on_Line120".to_string(), "".to_string(), vec![])
    );
}

#[test]
fn test_no_delimiter_value() {
    assert_eq!(
        parse_line("K =  V with spaces  ", ',', 1),
        ("K".to_string(), "V with spaces".to_string(), vec![])
    );
    assert_eq!(
        parse_line("K=V=W", ',', 1),
        ("K".to_string(), "V=W".to_string(), vec![])
    );
}

#[test]
fn test_attribute_token_count() {
    // Three delimiters in the tail yield exactly four tokens.
    let (option, primary, attrs) = parse_line("K=p, a,b ,c,d", ',', 1);
    assert_eq!(option, "K");
    assert_eq!(primary, "p");
    assert_eq!(attrs, vec!["a", "b", "c", "d"]);
}

#[test]
fn test_adjacent_delimiters_keep_empty_tokens() {
    assert_eq!(
        parse_line("K=a,,b", ',', 1),
        (
            "K".to_string(),
            "a".to_string(),
            vec!["".to_string(), "b".to_string()]
        )
    );
    assert_eq!(
        parse_line("K=a,", ',', 1),
        ("K".to_string(), "a".to_string(), vec!["".to_string()])
    );
}

#[test]
fn test_alternate_delimiter() {
    assert_eq!(
        parse_line("colors = red ; green ;blue", ';', 1),
        (
            "colors".to_string(),
            "red".to_string(),
            vec!["green".to_string(), "blue".to_string()]
        )
    );
}

#[test]
fn test_empty_key_is_skipped() {
    // A line starting with '=' yields an empty key, which the aggregator
    // treats as the skip sentinel.
    assert_eq!(parse_line("= x", ',', 1), ("".to_string(), "x".to_string(), vec![]));
    let lines = vec!["= x".to_string()];
    assert_eq!(parse_lines(&lines, ','), vec![]);
}

#[test]
fn test_parse_lines_scenario() {
    let lines = vec![
        "option = Blue , light , shiny".to_string(),
        "max_users = 30".to_string(),
        "DelayOff".to_string(),
        "Option  /home/foo".to_string(),
    ];
    let expected = vec![
        OptionProperties::new(
            "option".to_string(),
            "Blue".to_string(),
            vec!["light".to_string(), "shiny".to_string()],
        ),
        OptionProperties::new("max_users".to_string(), "30".to_string(), vec![]),
        OptionProperties::new("DelayOff".to_string(), "".to_string(), vec![]),
        OptionProperties::new("InvalidOption_on_Line4".to_string(), "".to_string(), vec![]),
    ];
    assert_eq!(parse_lines(&lines, ','), expected);
}

#[test]
fn test_line_numbers_count_skipped_lines() {
    let lines = vec![
        "".to_string(),
        "# comment".to_string(),
        "one two".to_string(),
        "   ".to_string(),
        "three four".to_string(),
    ];
    let records = parse_lines(&lines, ',');
    assert_eq!(records.len(), 2);
    assert_eq!(records[0].option, "InvalidOption_on_Line3");
    assert_eq!(records[1].option, "InvalidOption_on_Line5");
}

#[test]
fn test_record_order_follows_line_order() {
    let lines = vec![
        "b = 2".to_string(),
        "# gap".to_string(),
        "a = 1".to_string(),
        "c = 3".to_string(),
    ];
    let records = parse_lines(&lines, ',');
    assert_eq!(records.len(), 3);
    assert_eq!(records[0].option, "b");
    assert_eq!(records[1].option, "a");
    assert_eq!(records[2].option, "c");
    assert_eq!(records[1].value.primary, "1");
}

#[test]
fn test_reparse_is_equal() {
    let lines = vec![
        "option = Blue , light , shiny".to_string(),
        "max_users = 30".to_string(),
        "bad key".to_string(),
    ];
    let first = parse_lines(&lines, ',');
    let second = parse_lines(&lines, ',');
    assert_eq!(first, second);
}

#[test]
fn test_get_ver() {
    assert_eq!(get_ver(), "0.1.0");
}
