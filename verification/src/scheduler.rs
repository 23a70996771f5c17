//! The precision scheduler: rounds of digit generation whose target doubles
//! up to a cap, each handing on only the digits that the round before had
//! not reached.

use crate::digits::{compute_pi_digits, pi_digits};
use vstd::arithmetic::power2::{lemma2_to64, lemma_pow2_unfold, pow2};
use vstd::prelude::*;

verus! {

/// The number of digits of the first round.
pub const FIRST_TARGET: usize = 1_000;

/// The most digits that a round computes.
pub const MAX_TARGET: usize = 2_000_000;

/// The state between two rounds, as numbers.
pub struct Round {
    /// How many digits were handed on so far.
    pub computed: nat,
    /// How many digits the next round computes.
    pub target: nat,
}

impl Round {
    /// The state before the first round.
    pub open spec fn initial() -> Round {
        Round { computed: 0, target: FIRST_TARGET as nat }
    }

    /// The target is within its bounds and not behind what was handed on.
    pub open spec fn wf(self) -> bool {
        self.computed <= self.target && FIRST_TARGET <= self.target <= MAX_TARGET
    }

    /// The digits that the next round hands on: those of its target beyond
    /// the ones handed on before.
    pub open spec fn batch(self) -> Seq<u8> {
        pi_digits(self.target).skip(self.computed as int)
    }

    /// The state after a round whose batch was taken: the target doubles, up
    /// to the cap.
    pub open spec fn next(self) -> Round {
        Round {
            computed: self.target,
            target: if 2 * self.target <= MAX_TARGET {
                2 * self.target
            } else {
                MAX_TARGET as nat
            },
        }
    }

    /// The state after `rounds` rounds.
    pub open spec fn after(rounds: nat) -> Round
        decreases rounds,
    {
        if rounds == 0 {
            Round::initial()
        } else {
            Round::after((rounds - 1) as nat).next()
        }
    }
}

/// After any number of rounds the state is well formed, and the target is
/// the first target doubled once per round, or the cap where that is less.
pub proof fn lemma_after(rounds: nat)
    ensures
        Round::after(rounds).wf(),
        Round::after(rounds).target == if FIRST_TARGET * pow2(rounds) <= MAX_TARGET {
            FIRST_TARGET * pow2(rounds)
        } else {
            MAX_TARGET as int
        },
        rounds > 0 ==> Round::after(rounds).computed == Round::after((rounds - 1) as nat).target,
    decreases rounds,
{
    lemma2_to64();
    if rounds > 0 {
        lemma_after((rounds - 1) as nat);
        lemma_pow2_unfold(rounds);
    }
}

/// The digits of `all` from position `computed` on.
pub fn new_digits(all: &Vec<u8>, computed: usize) -> (batch: Vec<u8>)
    requires
        computed <= all.len(),
    ensures
        batch@ == all@.skip(computed as int),
{
    let mut batch: Vec<u8> = Vec::new();
    let mut i: usize = computed;
    while i < all.len()
        invariant
            computed <= i <= all.len(),
            batch@ == all@.subrange(computed as int, i as int),
        decreases all.len() - i,
    {
        batch.push(all[i]);
        assert(batch@ =~= all@.subrange(computed as int, i + 1));
        i += 1;
    }
    assert(batch@ =~= all@.skip(computed as int));
    batch
}

/// The producer's state between two rounds.
pub struct Scheduler {
    computed: usize,
    target: usize,
}

impl View for Scheduler {
    type V = Round;

    closed spec fn view(&self) -> Round {
        Round { computed: self.computed as nat, target: self.target as nat }
    }
}

impl Scheduler {
    /// Between two rounds the state is always well formed.
    #[verifier::type_invariant]
    spec fn inv(self) -> bool {
        self@.wf()
    }

    /// The scheduler before the first round.
    pub fn new() -> (scheduler: Scheduler)
        ensures
            scheduler@ == Round::initial(),
            scheduler@.wf(),
    {
        Scheduler { computed: 0, target: FIRST_TARGET }
    }

    /// How many digits were handed on so far.
    pub fn computed(&self) -> (computed: usize)
        ensures
            computed == self@.computed,
            self@.wf(),
    {
        proof {
            use_type_invariant(self);
        }
        self.computed
    }

    /// How many digits the next round computes.
    pub fn target(&self) -> (target: usize)
        ensures
            target == self@.target,
            self@.wf(),
    {
        proof {
            use_type_invariant(self);
        }
        self.target
    }

    /// Runs one round: computes the digits of the target and returns those
    /// that were not handed on before.
    pub fn next_batch(&self) -> (batch: Vec<u8>)
        ensures
            batch@ == self@.batch(),
            batch.len() == self@.target - self@.computed,
    {
        proof {
            use_type_invariant(self);
        }
        let all = compute_pi_digits(self.target);
        new_digits(&all, self.computed)
    }

    /// What follows a hand-off of the round's batch: where the batch was
    /// taken the scheduler moves on to the next round and the producer goes
    /// on; where it was refused the scheduler stays as it is and the producer
    /// stops, without a second attempt.
    pub fn after_handoff(&mut self, taken: bool) -> (go_on: bool)
        ensures
            go_on == taken,
            final(self)@.wf(),
            taken ==> final(self)@ == old(self)@.next(),
            !taken ==> final(self)@ == old(self)@,
    {
        proof {
            use_type_invariant(&*self);
        }
        if taken {
            self.advance();
        }
        taken
    }

    /// Moves on to the next round, once the batch of this one was taken.
    pub fn advance(&mut self)
        ensures
            final(self)@ == old(self)@.next(),
            final(self)@.wf(),
    {
        proof {
            use_type_invariant(&*self);
        }
        self.computed = self.target;
        self.target = if self.target * 2 <= MAX_TARGET {
            self.target * 2
        } else {
            MAX_TARGET
        };
    }
}

} // verus!
