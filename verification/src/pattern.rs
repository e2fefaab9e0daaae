//! Named stone shapes with their fixed scores, and the difficulty levels that
//! bind the search to a depth and a candidate cap.

use vstd::prelude::*;

verus! {

/// A classified run shape: length and open-end awareness.
#[derive(Debug, Clone, Copy, PartialEq, Eq, Structural)]
pub enum Pattern {
    Five,
    LiveFour,
    DeadFour,
    LiveThree,
    DeadThree,
    LiveTwo,
    DeadTwo,
}

/// The fixed score of a pattern.
pub open spec fn pattern_score(p: Pattern) -> int {
    match p {
        Pattern::Five => 100000,
        Pattern::LiveFour => 10000,
        Pattern::DeadFour => 1000,
        Pattern::LiveThree => 500,
        Pattern::DeadThree => 100,
        Pattern::LiveTwo => 50,
        Pattern::DeadTwo => 10,
    }
}

impl Pattern {
    /// The fixed score of this pattern.
    pub fn score(&self) -> (r: i32)
        ensures
            r == pattern_score(*self),
    {
        match self {
            Pattern::Five => 100000,
            Pattern::LiveFour => 10000,
            Pattern::DeadFour => 1000,
            Pattern::LiveThree => 500,
            Pattern::DeadThree => 100,
            Pattern::LiveTwo => 50,
            Pattern::DeadTwo => 10,
        }
    }
}

/// Every pattern score lies between 10 and 100000.
pub proof fn lemma_pattern_score_bounds(p: Pattern)
    ensures
        10 <= pattern_score(p) <= 100000,
{
}

/// Difficulty levels of the engine.
#[derive(Debug, Clone, Copy, PartialEq, Eq, Structural)]
pub enum Difficulty {
    Easy,
    Medium,
    Hard,
}

/// Search depth bound by a difficulty level.
pub open spec fn depth_of(d: Difficulty) -> int {
    match d {
        Difficulty::Easy => 2,
        Difficulty::Medium => 4,
        Difficulty::Hard => 6,
    }
}

/// Candidate cap bound by a difficulty level.
pub open spec fn candidate_cap_of(d: Difficulty) -> int {
    match d {
        Difficulty::Easy => 10,
        Difficulty::Medium => 15,
        Difficulty::Hard => 20,
    }
}

impl Difficulty {
    /// The search depth this level configures.
    pub fn search_depth(&self) -> (r: u8)
        ensures
            r == depth_of(*self),
    {
        match self {
            Difficulty::Easy => 2,
            Difficulty::Medium => 4,
            Difficulty::Hard => 6,
        }
    }

    /// The candidate-count cap this level configures.
    pub fn max_candidates(&self) -> (r: usize)
        ensures
            r == candidate_cap_of(*self),
    {
        match self {
            Difficulty::Easy => 10,
            Difficulty::Medium => 15,
            Difficulty::Hard => 20,
        }
    }
}

} // verus!
