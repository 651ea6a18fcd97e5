use muzgrep::lines::{line_end, split_first_line};
use muzgrep::matcher::search;

#[test]
fn line_end_is_the_first_line_feed() {
    assert_eq!(line_end(b"ab\ncd\n"), 2);
    assert_eq!(line_end(b"\nab"), 0);
    assert_eq!(line_end(b"abc"), 3);
    assert_eq!(line_end(b""), 0);
    assert_eq!(line_end(b"ab\r\n"), 3);
}

#[test]
fn split_takes_the_line_and_leaves_the_rest() {
    assert_eq!(split_first_line("one\ntwo\nthree"), ("one", "two\nthree"));
    assert_eq!(split_first_line("one\n"), ("one", ""));
    assert_eq!(split_first_line("one"), ("one", ""));
    assert_eq!(split_first_line("\ntwo"), ("", "two"));
    assert_eq!(split_first_line(""), ("", ""));
}

#[test]
fn split_drops_a_carriage_return_before_a_line_feed() {
    assert_eq!(split_first_line("one\r\ntwo"), ("one", "two"));
    assert_eq!(split_first_line("\r\ntwo"), ("", "two"));
    assert_eq!(split_first_line("one\r\r\ntwo"), ("one\r", "two"));
}

#[test]
fn split_keeps_other_carriage_returns() {
    assert_eq!(split_first_line("one\rtwo\nthree"), ("one\rtwo", "three"));
    assert_eq!(split_first_line("one\r"), ("one\r", ""));
}

#[test]
fn split_respects_characters_of_several_bytes() {
    assert_eq!(split_first_line("é\nü"), ("é", "ü"));
    assert_eq!(split_first_line("日本\r\n語"), ("日本", "語"));
}

#[test]
fn final_terminator_opens_no_line() {
    assert_eq!(search("", "a\nb\n"), vec!["a", "b"]);
    assert_eq!(search("", "a\nb"), vec!["a", "b"]);
    assert_eq!(search("", "\n"), vec![""]);
    assert_eq!(search("", "\n\n"), vec!["", ""]);
    assert_eq!(search("", "a\n\n"), vec!["a", ""]);
}

#[test]
fn carriage_return_at_the_very_end_stays() {
    assert_eq!(search("", "a\r\nb\r"), vec!["a", "b\r"]);
    assert_eq!(search("\r", "a\r\nb\r"), vec!["b\r"]);
}

#[test]
fn lines_agree_with_the_standard_library() {
    let texts = [
        "",
        "\n",
        "\r",
        "\r\n",
        "a",
        "a\n",
        "a\r\n",
        "a\rb",
        "a\n\nb",
        "a\r\n\r\nb\r",
        "\n\r\n\r",
        "é\r\n日本語\nz\n",
    ];
    for text in texts {
        let expected: Vec<&str> = text.lines().collect();
        assert_eq!(search("", text), expected);
    }
}
