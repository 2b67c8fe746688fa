use hist::config::{resolve_delimiter, TAB};
use hist::{aggregate, histogram, Config, HistError};

fn lines(input: &str, config: &Config) -> Vec<String> {
    histogram(input.as_bytes(), config).unwrap()
}

#[test]
fn default_config_counts_the_first_field_of_tab_separated_records() {
    let config = Config::default();
    assert_eq!(config, Config { delimiter: b'\t', key: 1 });
    let input = "a\tb\tc\na\tx\ty\n";
    let table = aggregate(input.as_bytes(), &config).unwrap();
    assert_eq!(table.len(), 1);
    assert_eq!(table.count("a"), 2);
    assert_eq!(lines(input, &config), vec!["a\t2\t##".to_string()]);
}

#[test]
fn custom_delimiter_and_key_select_the_second_field() {
    let config = Config::resolve(",", 2).unwrap();
    let input = "1,2\n1,3\n4,5\n";
    let table = aggregate(input.as_bytes(), &config).unwrap();
    assert_eq!(table.len(), 3);
    assert_eq!(table.count("2"), 1);
    assert_eq!(table.count("3"), 1);
    assert_eq!(table.count("5"), 1);
    assert_eq!(table.count("1"), 0);
    assert_eq!(
        lines(input, &config),
        vec!["2\t1\t#".to_string(), "3\t1\t#".to_string(), "5\t1\t#".to_string()]
    );
}

#[test]
fn a_record_without_the_key_field_is_fatal() {
    let config = Config { delimiter: TAB, key: 2 };
    assert_eq!(
        histogram(b"a\n", &config),
        Err(HistError::MissingField { record: 0 })
    );
    assert!(matches!(
        aggregate(b"a\n", &config),
        Err(HistError::MissingField { record: 0 })
    ));
}

#[test]
fn empty_input_gives_no_lines() {
    assert_eq!(histogram(b"", &Config::default()), Ok(Vec::new()));
    let table = aggregate(b"", &Config::default()).unwrap();
    assert_eq!(table.len(), 0);
    assert_eq!(table.total(), 0);
}

#[test]
fn keys_come_out_in_natural_order_not_in_byte_order() {
    let input = "item2\nitem10\nitem1\n";
    assert_eq!(
        lines(input, &Config::default()),
        vec![
            "item1\t1\t#".to_string(),
            "item2\t1\t#".to_string(),
            "item10\t1\t#".to_string()
        ]
    );
}

#[test]
fn letters_compare_without_regard_to_case() {
    let input = "b\nB\na\nC\n";
    assert_eq!(
        lines(input, &Config::default()),
        vec![
            "a\t1\t#".to_string(),
            "B\t1\t#".to_string(),
            "b\t1\t#".to_string(),
            "C\t1\t#".to_string()
        ]
    );
}

#[test]
fn counts_add_up_to_the_number_of_records() {
    let input = "x\ny\nx\nz\nx\ny\n";
    let config = Config::default();
    let table = aggregate(input.as_bytes(), &config).unwrap();
    assert_eq!(table.total(), 6);
    let mut sum = 0;
    for i in 0..table.len() {
        sum += table.count_at(i);
    }
    assert_eq!(sum, 6);
    assert_eq!(
        lines(input, &config),
        vec![
            "x\t3\t###".to_string(),
            "y\t2\t##".to_string(),
            "z\t1\t#".to_string()
        ]
    );
}

#[test]
fn each_bar_is_as_long_as_its_count() {
    let mut input = String::new();
    for _ in 0..12 {
        input.push_str("twelve\n");
    }
    for _ in 0..3 {
        input.push_str("three\n");
    }
    let rendered = lines(&input, &Config::default());
    assert_eq!(rendered.len(), 2);
    for line in rendered {
        let parts: Vec<&str> = line.split('\t').collect();
        assert_eq!(parts.len(), 3);
        let count: usize = parts[1].parse().unwrap();
        assert_eq!(parts[2].len(), count);
        assert!(parts[2].chars().all(|c| c == '#'));
    }
}

#[test]
fn the_same_input_gives_the_same_lines_again() {
    let input = "b\ta\nc\tb\nb\tz\na\tq\n";
    let config = Config::default();
    let first = histogram(input.as_bytes(), &config);
    let second = histogram(input.as_bytes(), &config);
    assert_eq!(first, second);
    assert_eq!(
        first,
        Ok(vec![
            "a\t1\t#".to_string(),
            "b\t2\t##".to_string(),
            "c\t1\t#".to_string()
        ])
    );
}

#[test]
fn a_record_of_another_length_is_a_parse_error() {
    let config = Config { delimiter: b',', key: 1 };
    assert_eq!(
        histogram(b"a,b\nc\nd,e\n", &config),
        Err(HistError::Parse { record: 1 })
    );
}

#[test]
fn input_that_is_not_utf8_is_a_parse_error() {
    assert_eq!(
        histogram(b"a\n\xff\xfe\n", &Config::default()),
        Err(HistError::Parse { record: 1 })
    );
    assert_eq!(
        histogram(b"\xff\n", &Config::default()),
        Err(HistError::Parse { record: 0 })
    );
}

#[test]
fn a_missing_field_is_reported_before_a_later_parse_error() {
    let config = Config { delimiter: b',', key: 2 };
    assert_eq!(
        histogram(b"a\nb,c\n", &config),
        Err(HistError::MissingField { record: 0 })
    );
}

#[test]
fn key_zero_selects_no_field() {
    let config = Config { delimiter: TAB, key: 0 };
    assert_eq!(
        histogram(b"a\tb\n", &config),
        Err(HistError::MissingField { record: 0 })
    );
    assert_eq!(histogram(b"", &config), Ok(Vec::new()));
}

#[test]
fn a_number_beyond_64_bits_cannot_be_ordered() {
    let input = "9\n99999999999999999999999999\n";
    assert_eq!(
        histogram(input.as_bytes(), &Config::default()),
        Err(HistError::NumberTooLarge)
    );
}

#[test]
fn numbers_up_to_64_bits_are_ordered_by_value() {
    let input = "18446744073709551615\n9\n18446744073709551614\n";
    assert_eq!(
        lines(input, &Config::default()),
        vec![
            "9\t1\t#".to_string(),
            "18446744073709551614\t1\t#".to_string(),
            "18446744073709551615\t1\t#".to_string()
        ]
    );
}

#[test]
fn blank_lines_are_no_records() {
    let table = aggregate(b"a\n\n\na\n", &Config::default()).unwrap();
    assert_eq!(table.total(), 2);
    assert_eq!(table.count("a"), 2);
}

#[test]
fn the_last_record_needs_no_line_end() {
    assert_eq!(
        lines("k\tv\nk\tw", &Config::default()),
        vec!["k\t2\t##".to_string()]
    );
}

#[test]
fn delimiter_arguments_resolve_to_bytes() {
    assert_eq!(resolve_delimiter("\\t"), Ok(b'\t'));
    assert_eq!(resolve_delimiter("\t"), Ok(b'\t'));
    assert_eq!(resolve_delimiter(","), Ok(b','));
    assert_eq!(resolve_delimiter(";x"), Ok(b';'));
    assert_eq!(resolve_delimiter("\\"), Ok(b'\\'));
    assert_eq!(resolve_delimiter("\\n"), Ok(b'\\'));
    assert_eq!(resolve_delimiter("\\tt"), Ok(b'\\'));
    assert_eq!(resolve_delimiter("\u{e9}"), Ok(0xc3));
    assert_eq!(resolve_delimiter(""), Err(HistError::InvalidDelimiter));
}

#[test]
fn config_resolves_its_delimiter() {
    assert_eq!(
        Config::resolve("\\t", 3),
        Ok(Config { delimiter: 9, key: 3 })
    );
    assert_eq!(
        Config::resolve("|", 1),
        Ok(Config { delimiter: b'|', key: 1 })
    );
    assert_eq!(Config::resolve("", 1), Err(HistError::InvalidDelimiter));
}
