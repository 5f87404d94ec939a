//! The session signal protocol. A question runner and a timer race to end
//! the session: each sends signals over one shared channel, and the
//! coordinator consumes them in arrival order, counting correct answers,
//! until the first terminal signal. The functions here are the decisions of
//! that protocol; the surrounding program supplies the threads, the channel
//! and the blocking reads.

use vstd::prelude::*;

use crate::matcher::answer_matches;
use crate::quiz::QAPair;
use crate::quiz::Quiz;

verus! {

/// A signal sent from a concurrent unit to the coordinator: either one more
/// correct answer, or an order to end the session.
pub enum Msg {
    Increment,
    Exit,
}

/// The final score of one session, produced once, after the signal stream
/// has been drained to its first terminal signal.
pub struct SessionResult {
    pub correct_count: usize,
    pub total_count: usize,
}

/// The score that a coordinator reading this signal stream reports: the
/// number of `Increment` signals before the first `Exit`, or all of them if
/// no `Exit` ever arrives (every sender gone).
pub open spec fn score_of(msgs: Seq<Msg>) -> nat
    decreases msgs.len(),
{
    if msgs.len() == 0 {
        0
    } else {
        match msgs[0] {
            Msg::Exit => 0,
            Msg::Increment => 1 + score_of(msgs.drop_first()),
        }
    }
}

/// The score never exceeds the number of signals received.
pub proof fn lemma_score_le_len(msgs: Seq<Msg>)
    ensures
        score_of(msgs) <= msgs.len(),
    decreases msgs.len(),
{
    if msgs.len() > 0 {
        lemma_score_le_len(msgs.drop_first());
    }
}

/// One interaction with the input provider: either a line of text, or a
/// transient read failure, which the runner answers with a retry notice and
/// another read of the same question.
pub enum InputEvent {
    Line(String),
    ReadFailure,
}

/// The lines the input provider actually yields, in order: transient read
/// failures produce no line and are retried past.
pub open spec fn lines_of(events: Seq<InputEvent>) -> Seq<Seq<char>>
    decreases events.len(),
{
    if events.len() == 0 {
        Seq::empty()
    } else {
        match events[0] {
            InputEvent::Line(s) => seq![s@] + lines_of(events.drop_first()),
            InputEvent::ReadFailure => lines_of(events.drop_first()),
        }
    }
}

/// How many of the questions, asked in order, the corresponding line answers
/// correctly.
pub open spec fn match_count(questions: Seq<QAPair>, lines: Seq<Seq<char>>) -> nat
    decreases questions.len(),
{
    if questions.len() == 0 {
        0
    } else {
        (if answer_matches(questions[0].answer@, lines[0]) {
            1 as nat
        } else {
            0 as nat
        }) + match_count(questions.drop_first(), lines.drop_first())
    }
}

/// The score signals the runner sends: one `Increment` per correctly
/// answered question, in question order.
pub open spec fn inc_msgs(questions: Seq<QAPair>, lines: Seq<Seq<char>>) -> Seq<Msg>
    decreases questions.len(),
{
    if questions.len() == 0 {
        Seq::empty()
    } else {
        (if answer_matches(questions[0].answer@, lines[0]) {
            seq![Msg::Increment]
        } else {
            Seq::<Msg>::empty()
        }) + inc_msgs(questions.drop_first(), lines.drop_first())
    }
}

/// Everything the runner sends over the channel: its score signals, then
/// exactly one terminal signal once the set is exhausted.
pub open spec fn runner_msgs(questions: Seq<QAPair>, lines: Seq<Seq<char>>) -> Seq<Msg> {
    inc_msgs(questions, lines) + seq![Msg::Exit]
}

/// The coordinator's running state: the score so far, the recorded size of
/// the full question set, and whether a terminal signal has arrived.
pub struct SessionState {
    pub correct: usize,
    pub total: usize,
    pub done: bool,
}

impl SessionState {
    /// Opens a session over a set whose size was captured before the
    /// question set was handed to the runner.
    pub fn new(total_count: usize) -> (s: SessionState)
        ensures
            s.correct == 0,
            s.total == total_count,
            !s.done,
    {
        SessionState { correct: 0, total: total_count, done: false }
    }

    /// Consumes one signal: `Increment` raises the score by one, `Exit` ends
    /// the session. The recorded set size never changes.
    pub fn on_msg(&mut self, msg: &Msg)
        requires
            old(self).correct < usize::MAX,
        ensures
            final(self).total == old(self).total,
            msg is Increment ==> final(self).correct == old(self).correct + 1
                && final(self).done == old(self).done,
            msg is Exit ==> final(self).correct == old(self).correct && final(self).done,
    {
        match msg {
            Msg::Increment => {
                self.correct = self.correct + 1;
            },
            Msg::Exit => {
                self.done = true;
            },
        }
    }

    /// The result the coordinator reports once it stops receiving.
    pub fn result(&self) -> (r: SessionResult)
        ensures
            r.correct_count == self.correct,
            r.total_count == self.total,
    {
        SessionResult { correct_count: self.correct, total_count: self.total }
    }
}

/// Consumes a recorded signal stream exactly as the coordinator's receive
/// loop does: counts `Increment` signals and stops at the first `Exit`;
/// a stream that ends without one (all senders gone) still yields whatever
/// score accumulated, never a failure.
pub fn drain(total_count: usize, msgs: &Vec<Msg>) -> (r: SessionResult)
    ensures
        r.total_count == total_count,
        r.correct_count == score_of(msgs@),
{
    let mut state = SessionState::new(total_count);
    let mut i: usize = 0;
    proof {
        lemma_score_le_len(msgs@);
        assert(msgs@.skip(0) =~= msgs@);
    }
    while i < msgs.len() && !state.done
        invariant
            0 <= i <= msgs@.len(),
            state.total == total_count,
            !state.done ==> score_of(msgs@) == state.correct + score_of(msgs@.skip(i as int)),
            state.done ==> state.correct == score_of(msgs@),
            state.correct <= i,
        decreases msgs@.len() - i,
    {
        proof {
            lemma_score_le_len(msgs@.skip(i as int));
            assert(msgs@.skip(i as int).drop_first() =~= msgs@.skip(i as int + 1));
            assert(msgs@.skip(i as int)[0] == msgs@[i as int]);
        }
        state.on_msg(&msgs[i]);
        i = i + 1;
    }
    proof {
        if !state.done {
            assert(msgs@.skip(i as int) =~= Seq::<Msg>::empty());
        }
    }
    state.result()
}

/// The lines yielded by two event streams back to back are the lines of the
/// first followed by the lines of the second.
pub proof fn lemma_lines_of_append(a: Seq<InputEvent>, b: Seq<InputEvent>)
    ensures
        lines_of(a + b) == lines_of(a) + lines_of(b),
    decreases a.len(),
{
    if a.len() == 0 {
        assert(a + b =~= b);
        assert(lines_of(a) + lines_of(b) =~= lines_of(b));
    } else {
        assert((a + b)[0] == a[0]);
        assert((a + b).drop_first() =~= a.drop_first() + b);
        lemma_lines_of_append(a.drop_first(), b);
        match a[0] {
            InputEvent::Line(s) => {
                assert(seq![s@] + (lines_of(a.drop_first()) + lines_of(b)) =~= (seq![s@]
                    + lines_of(a.drop_first())) + lines_of(b));
            },
            InputEvent::ReadFailure => {},
        }
    }
}

/// The runner reads one question per line: its score signals do not depend
/// on lines beyond the question set, so two line sequences that agree on the
/// first `questions.len()` positions give the same signals.
pub proof fn lemma_inc_msgs_agree(
    questions: Seq<QAPair>,
    l1: Seq<Seq<char>>,
    l2: Seq<Seq<char>>,
)
    requires
        questions.len() <= l1.len(),
        questions.len() <= l2.len(),
        forall|k: int| 0 <= k < questions.len() ==> l1[k] == l2[k],
    ensures
        inc_msgs(questions, l1) == inc_msgs(questions, l2),
        match_count(questions, l1) == match_count(questions, l2),
    decreases questions.len(),
{
    if questions.len() > 0 {
        assert(forall|k: int|
            0 <= k < questions.drop_first().len() ==> l1.drop_first()[k] == l2.drop_first()[k]);
        lemma_inc_msgs_agree(questions.drop_first(), l1.drop_first(), l2.drop_first());
    }
}

/// Answering one more question appends its score signal, if any, to the
/// signals of the questions before it.
pub proof fn lemma_inc_msgs_snoc(
    questions: Seq<QAPair>,
    lines: Seq<Seq<char>>,
    qa: QAPair,
    line: Seq<char>,
)
    requires
        questions.len() == lines.len(),
    ensures
        inc_msgs(questions.push(qa), lines.push(line)) == inc_msgs(questions, lines) + (
        if answer_matches(qa.answer@, line) {
            seq![Msg::Increment]
        } else {
            Seq::<Msg>::empty()
        }),
        match_count(questions.push(qa), lines.push(line)) == match_count(questions, lines) + (
        if answer_matches(qa.answer@, line) {
            1 as nat
        } else {
            0 as nat
        }),
    decreases questions.len(),
{
    let tail = if answer_matches(qa.answer@, line) {
        seq![Msg::Increment]
    } else {
        Seq::<Msg>::empty()
    };
    if questions.len() == 0 {
        assert(questions.push(qa)[0] == qa);
        assert(lines.push(line)[0] == line);
        assert(questions.push(qa).drop_first() =~= questions);
        assert(lines.push(line).drop_first() =~= lines);
        assert(inc_msgs(questions, lines) + tail =~= tail + Seq::<Msg>::empty());
    } else {
        assert(questions.push(qa)[0] == questions[0]);
        assert(lines.push(line)[0] == lines[0]);
        assert(questions.push(qa).drop_first() =~= questions.drop_first().push(qa));
        assert(lines.push(line).drop_first() =~= lines.drop_first().push(line));
        lemma_inc_msgs_snoc(questions.drop_first(), lines.drop_first(), qa, line);
        let head = if answer_matches(questions[0].answer@, lines[0]) {
            seq![Msg::Increment]
        } else {
            Seq::<Msg>::empty()
        };
        assert(head + (inc_msgs(questions.drop_first(), lines.drop_first()) + tail) =~= (head
            + inc_msgs(questions.drop_first(), lines.drop_first())) + tail);
    }
}

/// Every score signal is an `Increment`, and there are exactly as many as
/// there are correctly answered questions, never more than there are
/// questions.
pub proof fn lemma_inc_msgs_shape(questions: Seq<QAPair>, lines: Seq<Seq<char>>)
    ensures
        inc_msgs(questions, lines).len() == match_count(questions, lines),
        match_count(questions, lines) <= questions.len(),
        forall|i: int|
            0 <= i < inc_msgs(questions, lines).len() ==> inc_msgs(questions, lines)[i]
                is Increment,
    decreases questions.len(),
{
    if questions.len() > 0 {
        lemma_inc_msgs_shape(questions.drop_first(), lines.drop_first());
    }
}

/// The runner sends exactly one terminal signal, after everything else: its
/// last signal ends the session, and every signal before it is a score
/// signal.
pub proof fn lemma_runner_sends_one_terminal(questions: Seq<QAPair>, lines: Seq<Seq<char>>)
    ensures
        runner_msgs(questions, lines).len() == match_count(questions, lines) + 1,
        runner_msgs(questions, lines).last() == Msg::Exit,
        forall|i: int|
            0 <= i < runner_msgs(questions, lines).len() - 1 ==> runner_msgs(questions, lines)[i]
                is Increment,
{
    lemma_inc_msgs_shape(questions, lines);
    assert forall|i: int| 0 <= i < runner_msgs(questions, lines).len() - 1 implies runner_msgs(
        questions,
        lines,
    )[i] is Increment by {
        assert(runner_msgs(questions, lines)[i] == inc_msgs(questions, lines)[i]);
    }
}

/// Exactly one terminal signal ends the session: once a stream holds an
/// `Exit`, anything a late sender adds after it leaves the score unchanged.
pub proof fn lemma_score_stops_at_exit(msgs: Seq<Msg>, late: Seq<Msg>)
    requires
        msgs.contains(Msg::Exit),
    ensures
        score_of(msgs + late) == score_of(msgs),
    decreases msgs.len(),
{
    assert((msgs + late)[0] == msgs[0]);
    match msgs[0] {
        Msg::Exit => {},
        Msg::Increment => {
            let i = choose|i: int| 0 <= i < msgs.len() && msgs[i] == Msg::Exit;
            assert(msgs.drop_first()[i - 1] == Msg::Exit);
            assert(msgs.drop_first().contains(Msg::Exit));
            assert((msgs + late).drop_first() =~= msgs.drop_first() + late);
            lemma_score_stops_at_exit(msgs.drop_first(), late);
        },
    }
}

/// If the timer's terminal signal arrives while some prefix of the runner's
/// score signals has been delivered, the session scores exactly that prefix:
/// whatever arrives after the terminal signal is ignored.
pub proof fn lemma_timer_cutoff(answered: Seq<Msg>, late: Seq<Msg>)
    requires
        forall|i: int| 0 <= i < answered.len() ==> answered[i] is Increment,
    ensures
        score_of(answered + seq![Msg::Exit] + late) == answered.len(),
    decreases answered.len(),
{
    let whole = answered + seq![Msg::Exit] + late;
    if answered.len() == 0 {
        assert(whole[0] == Msg::Exit);
    } else {
        assert(whole[0] == answered[0]);
        assert(whole.drop_first() =~= answered.drop_first() + seq![Msg::Exit] + late);
        lemma_timer_cutoff(answered.drop_first(), late);
    }
}

/// When the runner finishes the whole set first, the coordinator scores
/// every correct answer, and the abandoned timer's late terminal signal
/// changes nothing.
pub proof fn lemma_runner_finishes_first(
    questions: Seq<QAPair>,
    lines: Seq<Seq<char>>,
    late: Seq<Msg>,
)
    ensures
        score_of(runner_msgs(questions, lines) + late) == match_count(questions, lines),
        score_of(runner_msgs(questions, lines)) == match_count(questions, lines),
    decreases questions.len(),
{
    let inc = inc_msgs(questions, lines);
    lemma_inc_msgs_shape(questions, lines);
    lemma_timer_cutoff(inc, late);
    lemma_timer_cutoff(inc, Seq::<Msg>::empty());
    assert(inc + seq![Msg::Exit] + late =~= runner_msgs(questions, lines) + late);
    assert(inc + seq![Msg::Exit] + Seq::<Msg>::empty() =~= runner_msgs(questions, lines));
}

/// A transient read failure, wherever it happens, yields no line: the lines
/// the runner consumes, and so the session's outcome, are unchanged by it.
pub proof fn lemma_read_failure_ignored(events: Seq<InputEvent>, i: int)
    requires
        0 <= i <= events.len(),
    ensures
        lines_of(events.insert(i, InputEvent::ReadFailure)) == lines_of(events),
{
    assert(events.insert(i, InputEvent::ReadFailure) =~= events.take(i) + seq![
        InputEvent::ReadFailure,
    ] + events.skip(i));
    lemma_lines_of_append(events.take(i) + seq![InputEvent::ReadFailure], events.skip(i));
    lemma_lines_of_append(events.take(i), seq![InputEvent::ReadFailure]);
    lemma_lines_of_append(events.take(i), events.skip(i));
    assert(seq![InputEvent::ReadFailure].drop_first() =~= Seq::<InputEvent>::empty());
    assert(seq![InputEvent::ReadFailure][0] is ReadFailure);
    assert(lines_of(Seq::<InputEvent>::empty()) =~= Seq::<Seq<char>>::empty());
    assert(lines_of(seq![InputEvent::ReadFailure]) == lines_of(
        seq![InputEvent::ReadFailure].drop_first(),
    ));
    assert(events.take(i) + events.skip(i) =~= events);
    assert(lines_of(events.take(i)) + lines_of(seq![InputEvent::ReadFailure]) =~= lines_of(
        events.take(i),
    ));
}

/// Scores one submitted answer against one question: the runner's decision
/// whether to send a score signal.
pub fn check_answer(pair: &QAPair, attempt: &str) -> (r: bool)
    ensures
        r == answer_matches(pair.answer@, attempt@),
{
    crate::matcher::matches(pair.answer.as_str(), attempt)
}

/// Runs the question loop over a recorded stream of input events, exactly as
/// the live runner does over the input provider: each question in order is
/// answered by the next line, a transient read failure is retried without
/// advancing the question, each correct answer yields one `Increment`, and
/// one terminal signal follows the last question. The events must yield at
/// least one line per question, as a provider that is retried indefinitely
/// does.
pub fn run_runner(quiz: &Quiz, events: &Vec<InputEvent>) -> (msgs: Vec<Msg>)
    requires
        quiz@.len() <= lines_of(events@).len(),
    ensures
        msgs@ == runner_msgs(quiz@, lines_of(events@)),
{
    let list = quiz.question_list();
    let n = list.len();
    let m = events.len();
    let mut msgs: Vec<Msg> = Vec::new();
    let mut i: usize = 0;
    let mut j: usize = 0;
    proof {
        assert(events@.take(0) =~= Seq::<InputEvent>::empty());
        assert(quiz@.take(0) =~= Seq::<QAPair>::empty());
    }
    while i < n
        invariant
            list@ == quiz@,
            n == quiz@.len(),
            quiz@.len() <= lines_of(events@).len(),
            0 <= i <= n,
            m == events@.len(),
            0 <= j <= m,
            lines_of(events@.take(j as int)).len() == i as int,
            msgs@ == inc_msgs(quiz@.take(i as int), lines_of(events@.take(j as int))),
        decreases events@.len() - j,
    {
        proof {
            assert(events@.take(j as int) + events@.skip(j as int) =~= events@);
            lemma_lines_of_append(events@.take(j as int), events@.skip(j as int));
            if j == events@.len() {
                assert(events@.skip(j as int) =~= Seq::<InputEvent>::empty());
                assert(lines_of(Seq::<InputEvent>::empty()) =~= Seq::<Seq<char>>::empty());
                assert(lines_of(events@).len() == i as int);
                assert(false);
            }
            assert(j < events@.len());
        }
        let ghost taken = events@.take(j as int);
        let ghost lines_taken = lines_of(taken);
        proof {
            assert(events@.take(j as int + 1) =~= taken + seq![events@[j as int]]);
            lemma_lines_of_append(taken, seq![events@[j as int]]);
            assert(seq![events@[j as int]][0] == events@[j as int]);
            assert(seq![events@[j as int]].drop_first() =~= Seq::<InputEvent>::empty());
        }
        match &events[j] {
            InputEvent::ReadFailure => {
                proof {
                    assert(events@[j as int] is ReadFailure);
                    assert(lines_of(Seq::<InputEvent>::empty()) =~= Seq::<Seq<char>>::empty());
                    assert(lines_of(seq![events@[j as int]]) =~= Seq::<Seq<char>>::empty());
                    assert(lines_taken + lines_of(seq![events@[j as int]]) =~= lines_taken);
                }
                j = j + 1;
            },
            InputEvent::Line(s) => {
                proof {
                    assert(events@[j as int] == InputEvent::Line(*s));
                    assert(lines_of(Seq::<InputEvent>::empty()) =~= Seq::<Seq<char>>::empty());
                    assert(seq![s@] + Seq::<Seq<char>>::empty() =~= seq![s@]);
                    assert(lines_of(seq![events@[j as int]]) =~= seq![s@]);
                    assert(lines_taken + seq![s@] =~= lines_taken.push(s@));
                    assert(quiz@.take(i as int + 1) =~= quiz@.take(i as int).push(
                        quiz@[i as int],
                    ));
                    lemma_inc_msgs_snoc(quiz@.take(i as int), lines_taken, quiz@[i as int], s@);
                }
                let correct = check_answer(&list[i], s.as_str());
                if correct {
                    msgs.push(Msg::Increment);
                } else {
                    proof {
                        assert(msgs@ + Seq::<Msg>::empty() =~= msgs@);
                    }
                }
                i = i + 1;
                j = j + 1;
            },
        }
    }
    proof {
        assert(quiz@.take(i as int) =~= quiz@);
        assert(events@.take(j as int) + events@.skip(j as int) =~= events@);
        lemma_lines_of_append(events@.take(j as int), events@.skip(j as int));
        let full = lines_of(events@);
        let taken = lines_of(events@.take(j as int));
        assert(forall|k: int| 0 <= k < quiz@.len() ==> taken[k] == #[trigger] full[k]);
        lemma_inc_msgs_agree(quiz@, taken, full);
    }
    msgs.push(Msg::Exit);
    proof {
        assert(msgs@ =~= inc_msgs(quiz@, lines_of(events@)) + seq![Msg::Exit]);
    }
    msgs
}

/// One whole session over a recorded stream of input events: the set size is
/// captured before the set is handed over, the set is shuffled first if asked
/// for, the runner answers every question, and the coordinator drains the
/// signals. The reported total is always the original set size, shuffled or
/// not, and the score never exceeds it.
pub fn run_session(quiz: Quiz, shuffle: bool, events: &Vec<InputEvent>) -> (r: SessionResult)
    requires
        quiz@.len() <= lines_of(events@).len(),
    ensures
        r.total_count == quiz@.len(),
        r.correct_count <= r.total_count,
        !shuffle ==> r.correct_count == match_count(quiz@, lines_of(events@)),
        shuffle ==> exists|asked: Seq<QAPair>|
            asked.to_multiset() == quiz@.to_multiset() && r.correct_count == match_count(
                asked,
                lines_of(events@),
            ),
{
    let total = quiz.len();
    let mut quiz = quiz;
    if shuffle {
        quiz.shuffle();
    }
    let msgs = run_runner(&quiz, events);
    proof {
        lemma_runner_finishes_first(quiz@, lines_of(events@), Seq::<Msg>::empty());
        lemma_inc_msgs_shape(quiz@, lines_of(events@));
        assert(runner_msgs(quiz@, lines_of(events@)) + Seq::<Msg>::empty() =~= runner_msgs(
            quiz@,
            lines_of(events@),
        ));
    }
    drain(total, &msgs)
}

} // verus!
