use wikipedia_random::fetcher::{Fetcher, FetcherError, FetcherType};
use wikipedia_random::printer::{get_alignment_padding, max_length, Alignment, Printer};

#[test]
fn left_alignment_single_body_line() {
    // body "a bb ccc" fits in one line at width 50; the body line has the
    // largest visible length, so the border interior is its length plus the
    // padding on both sides.
    let printer = Printer::new(Some(Alignment::LEFT), Some(50), Some(1));
    let rows = printer.render_message("T", "a bb ccc");
    assert_eq!(rows.len(), 5);
    assert_eq!(rows[0], "╭──────────╮");
    assert_eq!(rows[1], "│ \u{1b}[1mT\u{1b}[0m        │");
    assert_eq!(rows[2], "│          │");
    assert_eq!(rows[3], "│ a bb ccc │");
    assert_eq!(rows[4], "╰──────────╯");
}

#[test]
fn width_one_puts_every_word_on_its_own_line() {
    let printer = Printer::new(Some(Alignment::LEFT), Some(1), Some(1));
    let rows = printer.render_message("", "a bb ccc");
    assert_eq!(rows.len(), 7);
    assert_eq!(rows[0], "╭─────╮");
    assert_eq!(rows[1], "│ \u{1b}[1m\u{1b}[0m    │");
    assert_eq!(rows[2], "│     │");
    assert_eq!(rows[3], "│ a   │");
    assert_eq!(rows[4], "│ bb  │");
    assert_eq!(rows[5], "│ ccc │");
    assert_eq!(rows[6], "╰─────╯");
}

#[test]
fn right_alignment_deficit_four_padding_two() {
    let pads = get_alignment_padding(Alignment::RIGHT, 4, 2);
    assert_eq!(pads, (6, 2));
}

#[test]
fn left_alignment_pads() {
    let pads = get_alignment_padding(Alignment::LEFT, 4, 2);
    assert_eq!(pads, (2, 6));
}

#[test]
fn middle_alignment_odd_deficit_leans_left() {
    let pads = get_alignment_padding(Alignment::MIDDLE, 5, 0);
    assert_eq!(pads, (3, 2));
    let even = get_alignment_padding(Alignment::MIDDLE, 4, 1);
    assert_eq!(even, (3, 3));
}

#[test]
fn empty_body_renders_single_empty_line() {
    let printer = Printer::new(Some(Alignment::LEFT), Some(50), Some(1));
    let rows = printer.render_message("Hi", "");
    // the title's visible length is two, its eight marker characters are
    // not counted; the one empty body line and the separator both render
    // as blank rows inside borders sized by the visible maximum.
    assert_eq!(rows.len(), 5);
    assert_eq!(rows[0], "╭────╮");
    assert_eq!(rows[1], "│ \u{1b}[1mHi\u{1b}[0m │");
    assert_eq!(rows[2], "│    │");
    assert_eq!(rows[3], "│    │");
    assert_eq!(rows[4], "╰────╯");
}

#[test]
fn rendering_twice_is_byte_identical() {
    let a = Printer::new(Some(Alignment::MIDDLE), Some(20), Some(3));
    let b = Printer::new(Some(Alignment::MIDDLE), Some(20), Some(3));
    let first = a.render_message("Title", "some words wrap here in a stable way");
    let second = b.render_message("Title", "some words wrap here in a stable way");
    assert_eq!(first, second);
}

#[test]
fn defaults_are_width_fifty_padding_one_left() {
    let configured = Printer::new(Some(Alignment::LEFT), Some(50), Some(1));
    let defaulted = Printer::new(None, None, None);
    assert_eq!(
        configured.render_message("T", "a few words"),
        defaulted.render_message("T", "a few words"),
    );
}

#[test]
fn appended_line_may_reach_the_width() {
    // the wrap compares the line's length plus the word's length before the
    // separating space is added, so an appended line may end at exactly the
    // configured width.
    let printer = Printer::new(Some(Alignment::LEFT), Some(5), Some(1));
    let rows = printer.render_message("", "ab cd");
    // "ab" opens the line; 2 + 2 < 5 appends "cd": the line is "ab cd".
    assert_eq!(rows[3], "│ ab cd │");
}

#[test]
fn word_at_width_opens_new_line() {
    let printer = Printer::new(Some(Alignment::LEFT), Some(5), Some(1));
    let rows = printer.render_message("", "abcd efgh");
    assert_eq!(rows.len(), 6);
    assert_eq!(rows[3], "│ abcd │");
    assert_eq!(rows[4], "│ efgh │");
}

#[test]
fn consecutive_spaces_are_kept() {
    // split on single spaces yields an empty word between two separators;
    // appending it and the following word restores both spaces.
    let printer = Printer::new(Some(Alignment::LEFT), Some(50), Some(1));
    let rows = printer.render_message("", "a  b");
    assert_eq!(rows.len(), 5);
    assert_eq!(rows[3], "│ a  b │");
}

#[test]
fn right_alignment_renders_flush_right() {
    let printer = Printer::new(Some(Alignment::RIGHT), Some(1), Some(1));
    let rows = printer.render_message("", "a bb");
    assert_eq!(rows[3], "│  a │");
    assert_eq!(rows[4], "│ bb │");
}

#[test]
fn middle_alignment_centers_body_lines() {
    let printer = Printer::new(Some(Alignment::MIDDLE), Some(1), Some(0));
    let rows = printer.render_message("", "a bb");
    // the largest visible line is "bb"; "a" has an odd deficit of one,
    // whose extra space goes to the left.
    assert_eq!(rows[3], "│ a│");
    assert_eq!(rows[4], "│bb│");
}

#[test]
fn max_length_counts_characters_not_bytes() {
    let strings = vec![
        String::from("ab"),
        String::from("╭╮╰"),
        String::from(""),
    ];
    assert_eq!(max_length(&strings), 3);
}

#[test]
fn max_length_excludes_style_markers() {
    let strings = vec![
        String::from("\u{1b}[1mTitle\u{1b}[0m"),
        String::from("abc"),
    ];
    assert_eq!(max_length(&strings), 5);
    // a string too short to carry both marker sequences is measured whole
    let short = vec![String::from("\u{1b}[0m")];
    assert_eq!(max_length(&short), 4);
}

#[test]
fn title_markers_do_not_widen_the_box() {
    // the body line "abcdef" is visibly the longest; the border interior is
    // its six characters plus one padding on each side, unmoved by the
    // title row's invisible markers.
    let printer = Printer::new(Some(Alignment::LEFT), Some(50), Some(1));
    let rows = printer.render_message("Hi", "abcdef");
    assert_eq!(rows.len(), 5);
    assert_eq!(rows[0], "╭────────╮");
    assert_eq!(rows[1], "│ \u{1b}[1mHi\u{1b}[0m     │");
    assert_eq!(rows[2], "│        │");
    assert_eq!(rows[3], "│ abcdef │");
    assert_eq!(rows[4], "╰────────╯");
}

#[test]
fn max_length_of_empty_vector_is_zero() {
    let strings: Vec<String> = Vec::new();
    assert_eq!(max_length(&strings), 0);
}

#[test]
fn error_messages_carry_their_reason() {
    let request = FetcherError::RequestError(String::from("boom"));
    assert_eq!(request.message(), "boom");
    let parse = FetcherError::ParseError(String::from("bad json"));
    assert_eq!(parse.message(), "bad json");
}

#[test]
fn render_error_prefixes_the_message() {
    let printer = Printer::new(None, None, None);
    let line = printer.render_error(String::from("no network"));
    assert_eq!(line, "Error occured: no network");
}

#[test]
fn fetcher_keeps_path_and_type() {
    let fetcher = Fetcher::new(
        String::from("https://de.wikipedia.org/api/rest_v1/page/random/summary"),
        FetcherType::SingleBlocking,
    );
    assert_eq!(
        fetcher.path(),
        "https://de.wikipedia.org/api/rest_v1/page/random/summary"
    );
    assert!(matches!(fetcher.fetcher_type(), FetcherType::SingleBlocking));
    let multiple = Fetcher::new(String::from("u"), FetcherType::Multiple(3));
    assert!(matches!(multiple.fetcher_type(), FetcherType::Multiple(3)));
}
