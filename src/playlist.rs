//! What the queue keeper does next, and how it picks the tracks to add.
use vstd::prelude::*;
use crate::rng::{Weighted, WeightedChoice, positive_count};
use crate::score::{ScoreCompute, Action};

verus! {

/// What the queue keeper is set up with.
pub struct Settings {
    pub password: String,
    pub url: String,
    /// The length the queue is kept at.
    pub playlist_len: u32,
    /// How many played tracks are kept before the one playing.
    pub keep_before: u32,
    /// The rules that score each track.
    pub score_compute: Vec<ScoreCompute>,
    /// The updates made to a track once it has been queued.
    pub actions: Vec<Action>,
}

/// The next thing to do to the queue.
#[derive(PartialEq, Eq, Structural, Clone, Copy, Debug)]
pub enum Step {
    /// Delete the queue's entries at positions below `end`.
    Trim { end: u32 },
    /// Add `count` tracks.
    Fill { count: u32 },
    /// Wait for the daemon to report a change.
    Wait,
}

/// The step for a queue of `queue_len` entries whose playing entry, if any,
/// stands at `current`: trim where more than `keep_before` entries precede
/// it, else fill where the queue is shorter than `playlist_len`, else wait.
pub open spec fn step_spec(current: Option<u32>, queue_len: u32, keep_before: u32, playlist_len: u32) -> Step {
    if current.is_some() && current.unwrap() > keep_before {
        Step::Trim { end: (current.unwrap() - keep_before) as u32 }
    } else if queue_len < playlist_len {
        Step::Fill { count: (playlist_len - queue_len) as u32 }
    } else {
        Step::Wait
    }
}

impl Settings {
    /// Decides what to do to a queue of `queue_len` entries whose playing
    /// entry, if any, stands at `current`.
    pub fn next_step(&self, current: Option<u32>, queue_len: u32) -> (r: Step)
        ensures
            r == step_spec(current, queue_len, self.keep_before, self.playlist_len),
    {
        match current {
            Some(pos) => {
                if pos > self.keep_before {
                    return Step::Trim { end: pos - self.keep_before };
                }
            },
            None => {},
        }
        if queue_len < self.playlist_len {
            Step::Fill { count: self.playlist_len - queue_len }
        } else {
            Step::Wait
        }
    }
}

/// Draws up to `count` of the scored tracks at random, each with a chance
/// of its score over the scores left, none twice; fewer where fewer tracks
/// score above zero.
pub fn choose_tracks(scored: Vec<Weighted<String>>, count: u32) -> (r: Vec<String>)
    ensures
        r@.len() == if (count as int) < positive_count(scored@) {
            count as int
        } else {
            positive_count(scored@)
        },
        exists|drawn: Seq<Weighted<String>>|
            {
                &&& drawn.len() == r@.len()
                &&& forall|j: int|
                    0 <= j < drawn.len() ==> #[trigger] drawn[j].item == r@[j] && drawn[j].weight > 0
                &&& drawn.to_multiset().subset_of(scored@.to_multiset())
            },
{
    let mut pool = WeightedChoice::new(scored);
    let ghost start = pool@;
    let r = pool.sample_up_to(count as usize);
    proof {
        let drawn = choose|drawn: Seq<Weighted<String>>|
            {
                &&& drawn.len() == r@.len()
                &&& forall|j: int|
                    0 <= j < drawn.len() ==> #[trigger] drawn[j].item == r@[j] && drawn[j].weight > 0
                &&& pool@.to_multiset().add(drawn.to_multiset()) == start.to_multiset()
            };
        broadcast use vstd::multiset::group_multiset_axioms;
        assert(drawn.to_multiset().subset_of(scored@.to_multiset()));
    }
    r
}

} // verus!
