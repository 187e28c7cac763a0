//! Scoring rule of the secret computation: count the positions where a
//! player's entry matches the answer key exactly, skipping blank key slots.
//!
//! In production the comparison runs on the multi-party-computation engine
//! over secret-shared arrays; the arithmetic here is the cleartext statement
//! of that rule, verified once and for all values.

use vstd::prelude::*;

use crate::types::AnswersArr;
use crate::types::MAX_QUESTIONS;

verus! {

/// Number of positions `i < n` where the answer key holds a meaningful
/// (positive) value and the entry matches it exactly. Key positions at or
/// below zero are blank padding and never score.
pub open spec fn match_count(correct: Seq<i8>, entry: Seq<i8>, n: int) -> int
    recommends
        0 <= n <= correct.len(),
        correct.len() == entry.len(),
    decreases n,
{
    if n <= 0 {
        0
    } else {
        match_count(correct, entry, n - 1) + if correct[n - 1] > 0 && entry[n - 1] == correct[n
            - 1] {
            1int
        } else {
            0int
        }
    }
}

/// The number of scored matches never exceeds the number of inspected
/// positions, and is never negative.
pub proof fn lemma_match_count_bounds(correct: Seq<i8>, entry: Seq<i8>, n: int)
    requires
        0 <= n,
    ensures
        0 <= match_count(correct, entry, n) <= n,
    decreases n,
{
    if n > 0 {
        lemma_match_count_bounds(correct, entry, n - 1);
    }
}

/// Score a single entry against the answer key: one point for each position
/// where the key is meaningful (greater than zero) and the entry equals it.
pub fn compute_score(entry: &AnswersArr, correct_answers: &AnswersArr) -> (score: i8)
    ensures
        score as int == match_count(correct_answers@, entry@, MAX_QUESTIONS as int),
        0 <= score <= MAX_QUESTIONS,
{
    let mut score: i8 = 0;
    let mut i: usize = 0;
    while i < MAX_QUESTIONS
        invariant
            0 <= i <= MAX_QUESTIONS,
            score as int == match_count(correct_answers@, entry@, i as int),
            0 <= score <= i,
        decreases MAX_QUESTIONS - i,
    {
        if correct_answers[i] > 0 && entry[i] == correct_answers[i] {
            score = score + 1;
        }
        i = i + 1;
    }
    score
}

/// The scoring computation the collaborator runs per confirmed entry:
/// given the answer key and one entry, produce that entry's score.
pub fn calculate_results(correct_answers: &AnswersArr, entry: &AnswersArr) -> (score: i8)
    ensures
        score as int == match_count(correct_answers@, entry@, MAX_QUESTIONS as int),
        0 <= score <= MAX_QUESTIONS,
{
    compute_score(entry, correct_answers)
}

} // verus!
