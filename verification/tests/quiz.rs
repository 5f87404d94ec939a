use quiz_game::QAPair;
use quiz_game::Quiz;

fn pairs(records: &[(&str, &str)]) -> Vec<QAPair> {
    let mut v: Vec<QAPair> = Vec::new();
    for (q, a) in records {
        v.push(QAPair { question: String::from(*q), answer: String::from(*a) });
    }
    v
}

#[test]
fn load_keeps_the_given_order() {
    let quiz = Quiz::load(pairs(&[("1+1", "2"), ("2+2", "4")]));
    let expected = pairs(&[("1+1", "2"), ("2+2", "4")]);
    assert_eq!(&expected, quiz.question_list());
    assert_eq!(2, quiz.question_list().len());
    assert_eq!(2, quiz.len());
}

#[test]
fn empty_set_is_allowed() {
    let quiz = Quiz::load(Vec::new());
    assert_eq!(0, quiz.len());
    assert!(quiz.question_list().is_empty());
}

#[test]
fn shuffle_is_a_permutation() {
    let records: Vec<(String, String)> =
        (0..20).map(|i| (format!("q{}", i), format!("a{}", i))).collect();
    let mut original: Vec<QAPair> = Vec::new();
    for (q, a) in &records {
        original.push(QAPair { question: q.clone(), answer: a.clone() });
    }
    let mut quiz = Quiz::load(original);
    quiz.shuffle();

    assert_eq!(20, quiz.len());
    let mut seen: Vec<(String, String)> = quiz
        .question_list()
        .iter()
        .map(|p| (p.question.clone(), p.answer.clone()))
        .collect();
    seen.sort();
    let mut expected = records.clone();
    expected.sort();
    assert_eq!(expected, seen);
}

#[test]
fn pairs_compare_by_fields() {
    let a = QAPair { question: String::from("1+1"), answer: String::from("2") };
    let b = QAPair { question: String::from("1+1"), answer: String::from("2") };
    let c = QAPair { question: String::from("1+1"), answer: String::from("3") };
    assert_eq!(a, b);
    assert!(a != c);
}
