use hist::natural::is_orderable;
use hist::render::text_plot;
use hist::table::tally;
use hist::{aggregate, Config};
use lexical_sort::natural_lexical_cmp;
use std::cmp::Ordering;

fn awkward_keys() -> Vec<String> {
    let keys = [
        "", " ", "-", "_", "0", "00", "000", "1", "01", "001", "10", "010", "2", "9", "11", "100",
        "a", "A", "b", "B", "a1", "a01", "A1", "a2", "a10", "a1b", "a1B", "a01b", "1a", "1A",
        "01a", "a-1", "a 1", "a_1", "1/2", "\u{bd}", "3\u{bd}", "31/2", "e", "E", "\u{e9}",
        "\u{c9}", "e\u{301}", "ae", "\u{e6}", "AE", "af", "ss", "\u{df}", "z9", "z10", "z09",
        "9z", "10z", "x1y2", "x1y10", "x01y2", "\u{669}", "\u{661}\u{660}", "\u{5317}\u{4eb0}",
        "beijing", "\u{1f389}", "18446744073709551615", "18446744073709551614",
        "018446744073709551615", "1844674407370955161", "a18446744073709551615",
    ];
    keys.iter().map(|key| key.to_string()).collect()
}

#[test]
fn the_comparison_is_a_strict_total_order_on_orderable_keys() {
    let keys = awkward_keys();
    for a in &keys {
        assert!(is_orderable(a));
        assert_eq!(natural_lexical_cmp(a, a), Ordering::Equal);
        for b in &keys {
            let forth = natural_lexical_cmp(a, b);
            let back = natural_lexical_cmp(b, a);
            assert_eq!(forth, back.reverse(), "{:?} and {:?}", a, b);
            assert_eq!(forth == Ordering::Equal, a == b, "{:?} and {:?}", a, b);
            for c in &keys {
                if forth == Ordering::Less && natural_lexical_cmp(b, c) == Ordering::Less {
                    assert_eq!(
                        natural_lexical_cmp(a, c),
                        Ordering::Less,
                        "{:?}, {:?} and {:?}",
                        a,
                        b,
                        c
                    );
                }
            }
        }
    }
}

#[test]
fn the_lines_stand_in_the_order_of_the_comparison() {
    let mut column = awkward_keys();
    let again = column.clone();
    column.extend(again.into_iter().rev());
    let table = tally(&column);
    let lines = text_plot(&table);
    assert_eq!(lines.len(), awkward_keys().len());
    let shown: Vec<&str> = lines
        .iter()
        .map(|line| line.strip_suffix("\t2\t##").unwrap())
        .collect();
    for i in 0..shown.len() {
        for j in i + 1..shown.len() {
            assert_eq!(
                natural_lexical_cmp(shown[i], shown[j]),
                Ordering::Less,
                "{:?} before {:?}",
                shown[i],
                shown[j]
            );
        }
    }
    let mut expected = awkward_keys();
    expected.sort_by(|a, b| natural_lexical_cmp(a, b));
    assert_eq!(shown, expected);
}

#[test]
fn the_order_of_the_records_does_not_change_the_lines() {
    let forth = awkward_keys();
    let mut back = awkward_keys();
    back.reverse();
    assert_eq!(text_plot(&tally(&forth)), text_plot(&tally(&back)));
}

#[test]
fn any_byte_may_be_the_delimiter() {
    let input = b"a,b;c\td\"e\nf,g;h\ti\"j\r\n\nk\x00l\xffm\n";
    for delimiter in 0..=255u8 {
        for key in 0..4 {
            if let Ok(table) = aggregate(input, &Config { delimiter, key }) {
                assert!(table.total() >= table.len());
            }
        }
    }
}
