use categorax::error::Error;
use categorax::label::{choose_category, clean_label, ensure_values, parse_numbered_input};
use categorax::number::{read_number, write_number};
use categorax::text::{is_blank, is_white, join, split, trim, words, Separator};

fn texts(values: &[&str]) -> Vec<String> {
    values.iter().map(|value| value.to_string()).collect()
}

#[test]
fn white_space_is_that_of_unicode() {
    for c in '\0'..=char::MAX {
        assert_eq!(is_white(c), c.is_whitespace(), "{:?}", c);
    }
}

#[test]
fn labels_are_cleaned() {
    assert_eq!(clean_label("  family   photos "), "family photos");
    assert_eq!(clean_label("tax"), "tax");
    assert_eq!(clean_label("\tsummer\n\u{3000}2024\u{a0}"), "summer 2024");
    assert_eq!(clean_label(""), "");
    assert_eq!(clean_label(" \t\n"), "");
}

#[test]
fn cleaning_agrees_with_the_words_of_std() {
    for text in ["", " a  b ", "\u{2003}x\u{85}y z", "größe  und\tform", "a,b , c"] {
        let expected = text.split_whitespace().collect::<Vec<_>>().join(" ");
        assert_eq!(clean_label(text), expected);
        assert_eq!(trim(text), text.trim());
        assert_eq!(is_blank(text), text.trim().is_empty());
        assert_eq!(words(text), text.split_whitespace().collect::<Vec<_>>());
        assert_eq!(
            split(text, Separator::Char(',')),
            text.split(',').collect::<Vec<_>>()
        );
    }
}

#[test]
fn cleaning_twice_is_cleaning_once() {
    let once = clean_label("  a \t b ");
    assert_eq!(clean_label(&once), once);
}

#[test]
fn splitting_keeps_empty_pieces() {
    assert_eq!(split("a,,b,", Separator::Char(',')), texts(&["a", "", "b", ""]));
    assert_eq!(split("", Separator::Char(',')), texts(&[""]));
    assert_eq!(split(" a b", Separator::White), texts(&["", "a", "b"]));
}

#[test]
fn joining_puts_glue_between() {
    assert_eq!(join(&texts(&[]), ", "), "");
    assert_eq!(join(&texts(&["a"]), ", "), "a");
    assert_eq!(join(&texts(&["a", "b", "c"]), ", "), "a, b, c");
}

#[test]
fn numbers_are_read_as_by_std() {
    for text in [
        "0", "1", "42", "007", "+7", "+", "", "-1", "-0", "++1", "1_000", " 1", "1 ", "1a",
        "18446744073709551615", "18446744073709551616", "99999999999999999999", "\u{0661}",
    ] {
        assert_eq!(read_number(text), text.parse::<usize>().ok(), "{:?}", text);
    }
}

#[test]
fn numbers_are_written_in_decimal() {
    for n in [0, 7, 10, 99, 100, 12345, usize::MAX] {
        assert_eq!(write_number(n), n.to_string());
        assert_eq!(read_number(&write_number(n)), Some(n));
    }
}

#[test]
fn values_need_a_label_among_them() {
    assert!(ensure_values(&texts(&["", "a"]), "tag").is_ok());
    for values in [texts(&[]), texts(&["", " \t"])] {
        let error = ensure_values(&values, "tag").unwrap_err();
        assert!(matches!(&error, Error::MissingValue(name) if name == "tag"));
        assert_eq!(error.message(), "Please provide at least one tag.");
    }
}

#[test]
fn answers_mix_numbers_and_labels() {
    let shown = texts(&["alpha", "beta", "gamma"]);
    assert_eq!(
        parse_numbered_input("1, 3, family  photos, tax", &shown),
        texts(&["alpha", "family photos", "gamma", "tax"])
    );
}

#[test]
fn values_come_once_and_in_byte_order() {
    assert_eq!(
        parse_numbered_input("b,a,B,a, b ,\u{e9},z", &[]),
        texts(&["B", "a", "b", "z", "\u{e9}"])
    );
}

#[test]
fn order_of_the_answer_does_not_matter() {
    let shown = texts(&["x", "y"]);
    assert_eq!(
        parse_numbered_input("2,new,1", &shown),
        parse_numbered_input("1,2,new,1", &shown)
    );
}

#[test]
fn zero_picks_the_first_and_too_large_numbers_are_labels() {
    let shown = texts(&["only"]);
    assert_eq!(parse_numbered_input("0", &shown), texts(&["only"]));
    assert_eq!(parse_numbered_input("+1", &shown), texts(&["only"]));
    assert_eq!(parse_numbered_input("2", &shown), texts(&["2"]));
    assert_eq!(parse_numbered_input("0", &[]), texts(&["0"]));
}

#[test]
fn nothing_typed_gives_nothing() {
    let shown = texts(&["only"]);
    assert!(parse_numbered_input("", &shown).is_empty());
    assert!(parse_numbered_input(" , ,\t", &shown).is_empty());
}

#[test]
fn each_shown_number_picks_its_value() {
    let shown: Vec<String> = (0..12).map(|i| format!("tag{}", i)).collect();
    for i in 0..shown.len() {
        let picked = parse_numbered_input(&write_number(i + 1), &shown);
        assert_eq!(picked, vec![shown[i].clone()]);
        assert_eq!(choose_category(&write_number(i + 1), &shown), Some(shown[i].clone()));
    }
}

#[test]
fn categories_are_chosen_cleared_or_spelled() {
    let shown = texts(&["Home", "Work"]);
    assert_eq!(choose_category("2", &shown), Some("Work".to_string()));
    assert_eq!(choose_category("0", &shown), Some("Home".to_string()));
    assert_eq!(choose_category("3", &shown), None);
    assert_eq!(choose_category("  ", &shown), None);
    assert_eq!(choose_category(" big  plans ", &shown), Some("big plans".to_string()));
}

#[test]
fn answers_add_up() {
    let shown = texts(&["x", "y"]);
    let mut each = parse_numbered_input("2, b", &shown);
    each.extend(parse_numbered_input("a,1", &shown));
    each.sort();
    assert_eq!(parse_numbered_input("2, b,a,1", &shown), each);
}
