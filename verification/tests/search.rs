use muzgrep::matcher::contains;
use muzgrep::{search, search_case_insensitive};

#[test]
fn one_result() {
    let query = "pen";
    let contents = "\
            Haha!\
            \nCan't catch me for a penny cup of tea!\
            \nGoodbye.";
    let expected = vec!["Can't catch me for a penny cup of tea!"];

    let result = search(query, contents);

    assert_eq!(result, expected);
}

#[test]
fn case_sensitive() {
    let query = "pen";
    let contents = "\
            My pen!\
            \nPenny gave it to me.";
    let expected = vec!["My pen!"];

    let result = search(query, contents);

    assert_eq!(result, expected);
}

#[test]
fn case_insensitive() {
    let query = "pen";
    let contents = "\
            My pen!\
            \nPenny gave it to me.";
    let expected = vec!["My pen!", "Penny gave it to me."];

    let result = search_case_insensitive(query, contents);

    assert_eq!(result, expected);
}

#[test]
fn empty_query_returns_every_line() {
    let contents = "one\n\ntwo\r\nthree\n";
    assert_eq!(search("", contents), vec!["one", "", "two", "three"]);
    assert_eq!(search_case_insensitive("", contents), vec!["one", "", "two", "three"]);
}

#[test]
fn empty_contents_return_nothing() {
    assert_eq!(search("pen", ""), Vec::<&str>::new());
    assert_eq!(search("", ""), Vec::<&str>::new());
    assert_eq!(search_case_insensitive("pen", ""), Vec::<&str>::new());
    assert_eq!(search_case_insensitive("", ""), Vec::<&str>::new());
}

#[test]
fn no_line_matches() {
    assert_eq!(search("quill", "My pen!\nPenny gave it to me."), Vec::<&str>::new());
}

#[test]
fn line_with_two_occurrences_appears_once() {
    assert_eq!(search("pen", "pen and pen\nink"), vec!["pen and pen"]);
}

#[test]
fn equal_lines_are_all_kept() {
    assert_eq!(search("pen", "pen\nink\npen"), vec!["pen", "pen"]);
}

#[test]
fn query_does_not_match_across_lines() {
    assert_eq!(search("ab", "a\nb"), Vec::<&str>::new());
    assert_eq!(search("a\nb", "a\nb"), Vec::<&str>::new());
}

#[test]
fn query_in_upper_case_is_folded_too() {
    let contents = "My pen!\nPenny gave it to me.\nInk.";
    assert_eq!(
        search_case_insensitive("PEN", contents),
        vec!["My pen!", "Penny gave it to me."]
    );
    assert_eq!(search("PEN", contents), Vec::<&str>::new());
}

#[test]
fn matches_keep_their_case() {
    let found = search_case_insensitive("straße", "STRASSE\nSTRAßE\nStraße 1");
    assert_eq!(found, vec!["STRAßE", "Straße 1"]);
}

#[test]
fn text_beyond_ascii_is_matched_whole() {
    let contents = "naïve café\nnaive cafe\n日本語のテキスト";
    assert_eq!(search("é", contents), vec!["naïve café"]);
    assert_eq!(search("本語", contents), vec!["日本語のテキスト"]);
    assert_eq!(search_case_insensitive("CAFÉ", contents), vec!["naïve café"]);
}

#[test]
fn matches_are_slices_of_the_contents() {
    let contents = String::from("ink\nMy pen!\r\nPenny");
    let found = search_case_insensitive("pen", &contents);
    assert_eq!(found, vec!["My pen!", "Penny"]);
    let start = contents.as_ptr() as usize;
    assert_eq!(found[0].as_ptr() as usize - start, 4);
    assert_eq!(found[1].as_ptr() as usize - start, 13);
}

#[test]
fn same_inputs_give_same_matches() {
    let contents = "My pen!\nPenny gave it to me.\npencil";
    assert_eq!(search("pen", contents), search("pen", contents));
    assert_eq!(
        search_case_insensitive("pen", contents),
        search_case_insensitive("pen", contents)
    );
    assert_eq!(search("pen", contents), vec!["My pen!", "pencil"]);
}

#[test]
fn contains_finds_a_run_anywhere() {
    assert!(contains("penny", "pen"));
    assert!(contains("a penny", "penny"));
    assert!(contains("open", "pen"));
    assert!(contains("pen", "pen"));
    assert!(!contains("pe", "pen"));
    assert!(!contains("p-e-n", "pen"));
    assert!(!contains("", "pen"));
}

#[test]
fn contains_takes_the_empty_needle_everywhere() {
    assert!(contains("pen", ""));
    assert!(contains("", ""));
}

#[test]
fn contains_tells_case_apart() {
    assert!(!contains("Penny", "pen"));
    assert!(contains("Penny", "Pen"));
}

#[test]
fn contains_recovers_after_a_partial_match() {
    assert!(contains("aaab", "aab"));
    assert!(contains("ababac", "abac"));
    assert!(!contains("ababab", "abac"));
}

#[test]
fn lower_case_follows_the_standard_library() {
    let contents = "ὈΔΥΣΣΕΎΣ\nΟΔΟΣ";
    assert_eq!(search_case_insensitive("ὀδυσσεύς", contents), vec!["ὈΔΥΣΣΕΎΣ"]);
    assert_eq!(search_case_insensitive("Σ", "ΟΔΟΣ Σ"), vec!["ΟΔΟΣ Σ"]);
    assert_eq!(search_case_insensitive("οδος", contents), vec!["ΟΔΟΣ"]);
}
