use quiz_game::QAPair;
use quiz_game::session::check_answer;

#[test]
fn matches_trims_surrounding_whitespace() {
    assert!(quiz_game::matcher::matches("2", " 2 "));
}

#[test]
fn matches_is_case_insensitive() {
    assert!(quiz_game::matcher::matches("Paris", "PARIS"));
}

#[test]
fn matches_requires_exact_text() {
    assert!(!quiz_game::matcher::matches("2", "2.0"));
}

#[test]
fn matches_keeps_internal_whitespace() {
    assert!(!quiz_game::matcher::matches("a b", "a  b"));
}

#[test]
fn matches_normalizes_both_sides() {
    assert!(quiz_game::matcher::matches("  PaRiS  ", "paris"));
    assert!(quiz_game::matcher::matches("", "   "));
}

#[test]
fn check_answer_scores_one_pair() {
    let pair = QAPair {
        question: String::from("capital of France?"),
        answer: String::from("Paris"),
    };
    assert!(check_answer(&pair, " paris "));
    assert!(!check_answer(&pair, "London"));
}
