//! Agents that walk the grid without looking at it.
//!
//! An agent is made from a seed and then plays one move after the other. It
//! can also write itself down as a program for the compiler of the assembly
//! language, which yields the same moves as text.

use crate::bigint::decimal_digits;
use crate::bigint::BigInt;
use crate::geometry::Move;
use vstd::prelude::*;
use vstd::string::StringExecFns;

verus! {

/// An agent that plays without seeing the grid.
pub trait Agent: Sized {
    /// The name under which the agent is known.
    fn name() -> &'static str;

    /// The agent of a seed.
    fn new(seed: u32) -> Self;

    /// The next move.
    fn play(&mut self) -> Move;

    /// The program that yields the agent's first `move_count` moves.
    fn emit_agent(self, move_count: usize) -> String;
}

pub const FACTOR: u64 = 1664525u64;

pub const ADD: u64 = 1013904223u64;

pub const MODULO: u64 = 4294967296u64;

/// The state that follows a state of the generator.
pub open spec fn next_state(state: nat) -> nat {
    (1664525 * state + 1013904223) % 4294967296
}

/// The move that the generator plays in a state.
pub open spec fn move_of(state: nat) -> Move {
    let k = (state / 42) % 4;
    if k == 0 {
        Move::Up
    } else if k == 1 {
        Move::Left
    } else if k == 2 {
        Move::Down
    } else {
        Move::Right
    }
}

/// The text before the seed in the program of the agent.
pub open spec fn program_head() -> Seq<char> {
    "
            \"let rec generate_instructions seed num_insn = (
                if num_insn < 1 {
                    \"\"
                } else {
                    ((\"ULDR\" drop ((seed / 42) % 4)) take 1)
                    . (generate_instructions ((1664525 * seed + 1013904223) % 4294967296) (num_insn - 1))
                }
            ); in generate_instructions "@
}

/// The text after the number of moves in the program of the agent.
pub open spec fn program_tail() -> Seq<char> {
    "
        "@
}

/// The program of the agent of a seed for a number of moves.
pub open spec fn program_of(seed: nat, moves: nat) -> Seq<char> {
    program_head() + decimal_digits(seed) + seq![' '] + decimal_digits(moves) + program_tail()
}

/// An agent whose moves come from a linear congruential generator.
pub struct RandomStepAgent {
    seed: u32,
    rng_state: u64,
}

impl RandomStepAgent {
    #[verifier::type_invariant]
    spec fn wf(&self) -> bool {
        self.rng_state < 4294967296
    }

    /// The seed that the agent was made from.
    pub closed spec fn seed(&self) -> nat {
        self.seed as nat
    }

    /// The state of the generator.
    pub closed spec fn state(&self) -> nat {
        self.rng_state as nat
    }
}

impl Agent for RandomStepAgent {
    fn new(seed: u32) -> (r: Self)
        ensures
            r.seed() == seed,
            r.state() == seed,
    {
        RandomStepAgent { seed, rng_state: seed as u64 }
    }

    fn play(&mut self) -> (r: Move)
        ensures
            r == move_of(old(self).state()),
            final(self).state() == next_state(old(self).state()),
            final(self).seed() == old(self).seed(),
    {
        proof {
            use_type_invariant(&*self);
        }
        let k: u64 = (self.rng_state / 42) % 4;
        let op = if k == 0 {
            Move::Up
        } else if k == 1 {
            Move::Left
        } else if k == 2 {
            Move::Down
        } else {
            Move::Right
        };
        self.rng_state = (FACTOR * self.rng_state + ADD) % MODULO;
        op
    }

    fn emit_agent(self, iter_count: usize) -> (r: String)
        ensures
            r@ == program_of(self.seed(), iter_count as nat),
    {
        let mut out = String::from_str(
            "
            \"let rec generate_instructions seed num_insn = (
                if num_insn < 1 {
                    \"\"
                } else {
                    ((\"ULDR\" drop ((seed / 42) % 4)) take 1)
                    . (generate_instructions ((1664525 * seed + 1013904223) % 4294967296) (num_insn - 1))
                }
            ); in generate_instructions ",
        );
        let seed = BigInt::from_u64(self.seed as u64).to_decimal();
        let count = BigInt::from_u64(iter_count as u64).to_decimal();
        out.append(seed.as_str());
        proof {
            reveal_strlit(" ");
        }
        out.append(" ");
        out.append(count.as_str());
        out.append("
        ");
        proof {
            assert(" "@ =~= seq![' ']);
        }
        out
    }

    fn name() -> (r: &'static str)
        ensures
            r@ == "random_step"@,
    {
        "random_step"
    }
}

} // verus!
