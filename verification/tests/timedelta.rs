use polytope_quadtree::datacube::datacube_axis::{parse_timedelta, TimeUnit};

fn parsed(text: &str) -> Option<(i64, TimeUnit)> {
    parse_timedelta(text)
}

#[test]
fn a_number_alone_is_a_number_of_hours() {
    assert_eq!(parsed("60"), Some((60, TimeUnit::Hours)));
    assert_eq!(parsed("0"), Some((0, TimeUnit::Hours)));
    assert_eq!(parsed("-3"), Some((-3, TimeUnit::Hours)));
    assert_eq!(parsed("+7"), Some((7, TimeUnit::Hours)));
    assert_eq!(parsed("007"), Some((7, TimeUnit::Hours)));
}

#[test]
fn a_letter_gives_the_unit() {
    assert_eq!(parsed("60s"), Some((60, TimeUnit::Seconds)));
    assert_eq!(parsed("5m"), Some((5, TimeUnit::Minutes)));
    assert_eq!(parsed("1h"), Some((1, TimeUnit::Hours)));
    assert_eq!(parsed("-90s"), Some((-90, TimeUnit::Seconds)));
}

#[test]
fn white_space_around_the_text_is_set_aside() {
    assert_eq!(parsed("  60s\n"), Some((60, TimeUnit::Seconds)));
    assert_eq!(parsed("\t12 "), Some((12, TimeUnit::Hours)));
    assert_eq!(parsed("\u{3000}4m\u{a0}"), Some((4, TimeUnit::Minutes)));
}

#[test]
fn other_texts_write_no_span() {
    for text in [
        "", " ", "s", "m", "h", "-", "+", "-s", "1 h", "1hh", "1d", "h1", "1.5h", "1e3", "--1",
        "+-1", "1 2", "12sm", "٣", "1٣",
    ] {
        assert_eq!(parsed(text), None, "{:?}", text);
    }
}

#[test]
fn numbers_at_the_edge_of_the_range() {
    assert_eq!(parsed("9223372036854775807"), Some((i64::MAX, TimeUnit::Hours)));
    assert_eq!(parsed("-9223372036854775808"), Some((i64::MIN, TimeUnit::Hours)));
    assert_eq!(parsed("9223372036854775808"), None);
    assert_eq!(parsed("-9223372036854775809"), None);
    assert_eq!(parsed("99999999999999999999999999999999999999999999s"), None);
    assert_eq!(
        parsed("0000000000000000000000000000000000000009223372036854775807m"),
        Some((i64::MAX, TimeUnit::Minutes))
    );
}

#[test]
fn the_unit_is_read_after_the_white_space_is_set_aside() {
    assert_eq!(parsed(" 7 h "), None);
    assert_eq!(parsed("7h "), Some((7, TimeUnit::Hours)));
    assert_eq!(parsed("7 "), Some((7, TimeUnit::Hours)));
    assert_eq!(parsed("\u{2028}-12m\u{205f}"), Some((-12, TimeUnit::Minutes)));
    assert_eq!(parsed("\u{200b}12m"), None);
}
