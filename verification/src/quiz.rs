//! The question set: an ordered sequence of question/answer pairs, owned by
//! one session, with an optional one-time random reordering before iteration
//! begins.

use rand::seq::SliceRandom;
use vstd::prelude::*;

verus! {

/// One question/expected-answer record.
#[derive(Debug)]
pub struct QAPair {
    pub question: String,
    pub answer: String,
}

impl PartialEq for QAPair {
    fn eq(&self, other: &QAPair) -> (r: bool) {
        self.question == other.question && self.answer == other.answer
    }
}

impl vstd::std_specs::cmp::PartialEqSpecImpl for QAPair {
    open spec fn obeys_eq_spec() -> bool {
        true
    }

    open spec fn eq_spec(&self, other: &QAPair) -> bool {
        self.question@ == other.question@ && self.answer@ == other.answer@
    }
}

/// An ordered list of questions and answers for one quiz session.
pub struct Quiz {
    question_list: Vec<QAPair>,
}

impl View for Quiz {
    type V = Seq<QAPair>;

    closed spec fn view(&self) -> Seq<QAPair> {
        self.question_list@
    }
}

/// Relies on rand::thread_rng: a handle to the thread-local random number
/// generator, seeded by the system.
#[verifier::external_body]
fn fresh_rng() -> rand::rngs::ThreadRng {
    rand::thread_rng()
}

#[verifier::external_type_specification]
#[verifier::external_body]
pub struct ExThreadRng(rand::rngs::ThreadRng);

/// Relies on rand::seq::SliceRandom::shuffle: reorders the slice in place by
/// swapping elements (a Fisher-Yates pass), so the elements afterwards are a
/// permutation of the elements before.
#[verifier::external_body]
fn shuffle_pairs(v: &mut Vec<QAPair>, rng: &mut rand::rngs::ThreadRng)
    ensures
        final(v)@.to_multiset() == old(v)@.to_multiset(),
{
    v[..].shuffle(rng)
}

impl Quiz {
    /// Wraps an ordered sequence of pairs as a quiz, as given: no validation,
    /// duplicates allowed, empty allowed.
    pub fn load(question_list: Vec<QAPair>) -> (q: Quiz)
        ensures
            q@ == question_list@,
    {
        Quiz { question_list }
    }

    /// Returns a reference to the question list.
    pub fn question_list(&self) -> (r: &Vec<QAPair>)
        ensures
            r@ == self@,
    {
        &self.question_list
    }

    /// The number of questions in the set.
    pub fn len(&self) -> (n: usize)
        ensures
            n == self@.len(),
    {
        self.question_list.len()
    }

    /// Reorders the questions in place, uniformly at random: afterwards the
    /// list holds the same pairs, as a multiset, and the same number of them.
    pub fn shuffle(&mut self)
        ensures
            final(self)@.to_multiset() == old(self)@.to_multiset(),
            final(self)@.len() == old(self)@.len(),
    {
        let mut rng = fresh_rng();
        shuffle_pairs(&mut self.question_list, &mut rng);
        proof {
            broadcast use vstd::seq_lib::group_to_multiset_ensures;

            assert(old(self)@.len() == old(self)@.to_multiset().len());
            assert(self@.len() == self@.to_multiset().len());
        }
    }
}

} // verus!
