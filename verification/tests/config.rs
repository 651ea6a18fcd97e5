use muzgrep::Config;

fn args(words: &[&str]) -> Vec<String> {
    words.iter().map(|w| w.to_string()).collect()
}

#[test]
fn build_reads_query_and_path() {
    let config = Config::build(args(&["muzgrep", "pen", "poem.txt"]), false).unwrap();
    assert_eq!(config.query(), "pen");
    assert_eq!(config.file_path(), "poem.txt");
    assert!(!config.ignore_case());
}

#[test]
fn build_keeps_the_case_flag() {
    let config = Config::build(args(&["muzgrep", "pen", "poem.txt"]), true).unwrap();
    assert!(config.ignore_case());
}

#[test]
fn build_ignores_further_arguments() {
    let config = Config::build(args(&["muzgrep", "pen", "poem.txt", "more", "yet"]), false).unwrap();
    assert_eq!(config.query(), "pen");
    assert_eq!(config.file_path(), "poem.txt");
}

#[test]
fn build_without_query_fails() {
    assert_eq!(
        Config::build(args(&["muzgrep"]), false).err(),
        Some("No query string specified")
    );
    assert_eq!(Config::build(args(&[]), true).err(), Some("No query string specified"));
}

#[test]
fn build_without_path_fails() {
    assert_eq!(
        Config::build(args(&["muzgrep", "pen"]), false).err(),
        Some("No file path specified")
    );
}

#[test]
fn find_in_follows_the_case_flag() {
    let contents = "My pen!\nPenny gave it to me.";
    let exact = Config::build(args(&["muzgrep", "pen", "poem.txt"]), false).unwrap();
    assert_eq!(exact.find_in(contents), vec!["My pen!"]);
    let folded = Config::build(args(&["muzgrep", "pen", "poem.txt"]), true).unwrap();
    assert_eq!(folded.find_in(contents), vec!["My pen!", "Penny gave it to me."]);
}
