use quiz_game::InputEvent;
use quiz_game::Msg;
use quiz_game::QAPair;
use quiz_game::Quiz;
use quiz_game::SessionState;
use quiz_game::session::drain;
use quiz_game::session::run_runner;
use quiz_game::session::run_session;

fn quiz_of(records: &[(&str, &str)]) -> Quiz {
    let mut v: Vec<QAPair> = Vec::new();
    for (q, a) in records {
        v.push(QAPair { question: String::from(*q), answer: String::from(*a) });
    }
    Quiz::load(v)
}

fn lines(texts: &[&str]) -> Vec<InputEvent> {
    texts.iter().map(|t| InputEvent::Line(String::from(*t))).collect()
}

#[test]
fn one_of_two_answers_scores() {
    let quiz = quiz_of(&[("1+1", "2"), ("2+2", "4")]);
    let result = run_session(quiz, false, &lines(&["2", "5"]));
    assert_eq!(1, result.correct_count);
    assert_eq!(2, result.total_count);
}

#[test]
fn empty_set_scores_zero_of_zero() {
    let quiz = quiz_of(&[]);
    let result = run_session(quiz, false, &Vec::new());
    assert_eq!(0, result.correct_count);
    assert_eq!(0, result.total_count);
}

#[test]
fn read_failures_retry_the_same_question() {
    let quiz = quiz_of(&[("capital of France?", "Paris")]);
    let events = vec![
        InputEvent::ReadFailure,
        InputEvent::ReadFailure,
        InputEvent::Line(String::from("  paris ")),
    ];
    let result = run_session(quiz, false, &events);
    assert_eq!(1, result.correct_count);
    assert_eq!(1, result.total_count);
}

#[test]
fn total_is_the_original_length_when_shuffled() {
    let quiz = quiz_of(&[("a?", "x"), ("b?", "x"), ("c?", "x")]);
    let result = run_session(quiz, true, &lines(&["x", "x", "x"]));
    assert_eq!(3, result.correct_count);
    assert_eq!(3, result.total_count);
}

#[test]
fn timer_exit_preempts_later_signals() {
    let msgs = vec![Msg::Increment, Msg::Exit, Msg::Increment, Msg::Exit];
    let result = drain(3, &msgs);
    assert_eq!(1, result.correct_count);
    assert_eq!(3, result.total_count);
}

#[test]
fn runner_finishing_first_scores_every_answer() {
    let quiz = quiz_of(&[("1+1", "2"), ("2+2", "4")]);
    let mut msgs = run_runner(&quiz, &lines(&["2", "4"]));
    // The abandoned timer's terminal signal arrives after the runner's own.
    msgs.push(Msg::Exit);
    let result = drain(2, &msgs);
    assert_eq!(2, result.correct_count);
    assert_eq!(2, result.total_count);
}

#[test]
fn runner_sends_one_increment_per_match_then_exit() {
    let quiz = quiz_of(&[("1+1", "2"), ("2+2", "4"), ("3+3", "6")]);
    let msgs = run_runner(&quiz, &lines(&["2", "5", "6"]));
    assert_eq!(3, msgs.len());
    assert!(matches!(msgs[0], Msg::Increment));
    assert!(matches!(msgs[1], Msg::Increment));
    assert!(matches!(msgs[2], Msg::Exit));
}

#[test]
fn stream_without_exit_reports_partial_score() {
    let msgs = vec![Msg::Increment, Msg::Increment];
    let result = drain(4, &msgs);
    assert_eq!(2, result.correct_count);
    assert_eq!(4, result.total_count);
}

#[test]
fn session_state_counts_until_exit() {
    let mut state = SessionState::new(7);
    assert_eq!(0, state.correct);
    assert!(!state.done);
    state.on_msg(&Msg::Increment);
    state.on_msg(&Msg::Increment);
    assert_eq!(2, state.correct);
    assert!(!state.done);
    state.on_msg(&Msg::Exit);
    assert!(state.done);
    let result = state.result();
    assert_eq!(2, result.correct_count);
    assert_eq!(7, result.total_count);
}

#[test]
fn extra_lines_beyond_the_set_are_ignored() {
    let quiz = quiz_of(&[("1+1", "2")]);
    let result = run_session(quiz, false, &lines(&["2", "4", "6"]));
    assert_eq!(1, result.correct_count);
    assert_eq!(1, result.total_count);
}
