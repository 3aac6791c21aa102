use vstd::prelude::*;

verus! {

pub type Difficulty = u64;

pub type HashID = u64;

pub type Height = u32;

pub type Timestamp = u32;

pub type Weight = Difficulty;

pub type ChainWeight = Weight;

/// How hash rate is spread at random over the extra chains.
#[derive(Debug, Clone, Copy, PartialEq, Eq)]
pub enum RandHrMethod {
    TwinUniform,
}

/// Parameters shared by every chain of a simulated network.
#[derive(Debug, Clone, Copy)]
pub struct NetworkArgs {
    pub block_target: u16,
    pub daa2_n_blocks: usize,
    pub fixed_difficulty: Option<Difficulty>,
    pub por_chains: u16,
    pub random_hr_distrib: bool,
    pub rand_hr_incl_main: bool,
    pub rand_hr_method: RandHrMethod,
}

impl NetworkArgs {
    /// Network arguments for a single chain (no proof of reflection).
    pub fn new(block_target: u16) -> (r: Self)
        ensures
            r.block_target == block_target,
            r.daa2_n_blocks == 100,
            r.por_chains == 1,
            !r.random_hr_distrib,
            !r.rand_hr_incl_main,
            r.rand_hr_method == RandHrMethod::TwinUniform,
            r.fixed_difficulty is None,
    {
        NetworkArgs {
            block_target,
            daa2_n_blocks: 100,
            por_chains: 1,
            random_hr_distrib: false,
            rand_hr_incl_main: false,
            rand_hr_method: RandHrMethod::TwinUniform,
            fixed_difficulty: None,
        }
    }

    /// Network arguments for `por_chains` chains that reflect each other.
    pub fn new_por(block_target: u16, por_chains: u16) -> (r: Self)
        ensures
            r.block_target == block_target,
            r.daa2_n_blocks == 100,
            r.por_chains == por_chains,
            !r.random_hr_distrib,
            !r.rand_hr_incl_main,
            r.rand_hr_method == RandHrMethod::TwinUniform,
            r.fixed_difficulty is None,
    {
        NetworkArgs {
            block_target,
            daa2_n_blocks: 100,
            por_chains,
            random_hr_distrib: false,
            rand_hr_incl_main: false,
            rand_hr_method: RandHrMethod::TwinUniform,
            fixed_difficulty: None,
        }
    }

    /// The number of chains that get a randomly drawn hash rate.
    pub open spec fn spec_n_extra_chains(self) -> int {
        if self.por_chains == 0 {
            0
        } else if self.rand_hr_incl_main {
            self.por_chains as int
        } else {
            self.por_chains - 1
        }
    }

    pub fn n_extra_chains(&self) -> (r: u32)
        ensures
            r == self.spec_n_extra_chains(),
    {
        if self.por_chains == 0 {
            0
        } else {
            self.por_chains as u32 - (if self.rand_hr_incl_main {
                0
            } else {
                1
            })
        }
    }

    /// A copy of `self` in which a fixed difficulty, where there is one, becomes `d`.
    pub fn clone_and_set_fixed_d(&self, d: u64) -> (r: Self)
        ensures
            r.block_target == self.block_target,
            r.daa2_n_blocks == self.daa2_n_blocks,
            r.por_chains == self.por_chains,
            r.random_hr_distrib == self.random_hr_distrib,
            r.rand_hr_incl_main == self.rand_hr_incl_main,
            r.rand_hr_method == self.rand_hr_method,
            r.fixed_difficulty == (match self.fixed_difficulty {
                Some(_) => Some(d),
                None => None::<u64>,
            }),
    {
        let mut ret = *self;
        ret.fixed_difficulty = match ret.fixed_difficulty {
            Some(_) => Some(d),
            None => None,
        };
        ret
    }
}

} // verus!
