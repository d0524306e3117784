//! Run parameters that the simulation checks before any trial starts.
use crate::grid::cells;
use crate::simulation::FULL_THRESHOLD;
use vstd::arithmetic::div_mod::lemma_fundamental_div_mod_converse;
use vstd::prelude::*;

verus! {

/// Which tallies a run produces.
#[derive(Debug, Clone, Copy, PartialEq, Eq)]
pub enum Mode {
    /// Spanning probability and mean largest cluster, over a stepped range of probabilities.
    Ave,
    /// Full cluster-size distribution, for each probability of a list.
    Dist,
}

/// A run parameter that makes the run meaningless; found before any trial.
#[derive(Debug, Clone, Copy, PartialEq, Eq)]
pub enum ConfigError {
    /// The lattice side is 0.
    ZeroLatticeSize,
    /// The lattice has too many sites for the cluster table's entries.
    LatticeTooLarge,
    /// The number of trials is 0.
    ZeroTrials,
    /// A probability threshold lies above certainty.
    ProbabilityOutOfRange,
    /// The probability step is 0.
    ZeroStep,
    /// The smallest probability lies above the largest.
    MinAboveMax,
}

/// Largest lattice side whose site count, plus the two reserved labels, fits an `i32`.
pub const MAX_LATTICE_SIZE: usize = 46340;

/// Checks the lattice side and the number of trials.
pub fn check_run(lattice_size: usize, trials: u32) -> (r: Result<(), ConfigError>)
    ensures
        lattice_size == 0 ==> r == Err::<(), ConfigError>(ConfigError::ZeroLatticeSize),
        lattice_size > MAX_LATTICE_SIZE ==> r == Err::<(), ConfigError>(
            ConfigError::LatticeTooLarge,
        ),
        0 < lattice_size <= MAX_LATTICE_SIZE && trials == 0 ==> r == Err::<(), ConfigError>(
            ConfigError::ZeroTrials,
        ),
        r is Ok <==> 0 < lattice_size <= MAX_LATTICE_SIZE && trials > 0,
        r is Ok ==> cells(lattice_size as int) + 2 <= i32::MAX,
{
    if lattice_size == 0 {
        return Err(ConfigError::ZeroLatticeSize);
    }
    if lattice_size > MAX_LATTICE_SIZE {
        return Err(ConfigError::LatticeTooLarge);
    }
    if trials == 0 {
        return Err(ConfigError::ZeroTrials);
    }
    proof {
        assert(cells(lattice_size as int) + 2 <= i32::MAX) by (nonlinear_arith)
            requires
                0 < lattice_size <= MAX_LATTICE_SIZE,
        ;
    }
    Ok(())
}

/// Checks one probability threshold of a list.
pub fn check_threshold(threshold: u64) -> (r: Result<(), ConfigError>)
    ensures
        r is Ok <==> threshold <= FULL_THRESHOLD,
        !(r is Ok) ==> r == Err::<(), ConfigError>(ConfigError::ProbabilityOutOfRange),
{
    if threshold > FULL_THRESHOLD {
        Err(ConfigError::ProbabilityOutOfRange)
    } else {
        Ok(())
    }
}

/// The thresholds of a stepped sweep: `min`, `min + step`, ... up to `max` inclusive,
/// counted with integers so that no step is lost to rounding.
pub fn sweep_thresholds(min: u64, max: u64, step: u64) -> (r: Result<Vec<u64>, ConfigError>)
    ensures
        step == 0 ==> r == Err::<Vec<u64>, ConfigError>(ConfigError::ZeroStep),
        step > 0 && max > FULL_THRESHOLD ==> r == Err::<Vec<u64>, ConfigError>(
            ConfigError::ProbabilityOutOfRange,
        ),
        step > 0 && max <= FULL_THRESHOLD && min > max ==> r == Err::<Vec<u64>, ConfigError>(
            ConfigError::MinAboveMax,
        ),
        r is Ok <==> step > 0 && min <= max && max <= FULL_THRESHOLD,
        r matches Ok(v) ==> v@.len() == (max - min) / (step as int) + 1 && forall|k: int|
            0 <= k < v@.len() ==> #[trigger] v@[k] == min + k * step,
{
    if step == 0 {
        return Err(ConfigError::ZeroStep);
    }
    if max > FULL_THRESHOLD {
        return Err(ConfigError::ProbabilityOutOfRange);
    }
    if min > max {
        return Err(ConfigError::MinAboveMax);
    }
    let mut v: Vec<u64> = Vec::new();
    let mut cur: u64 = min;
    v.push(cur);
    while max - cur >= step
        invariant
            step > 0,
            min <= cur <= max,
            v@.len() >= 1,
            cur == min + (v@.len() - 1) * step,
            forall|k: int| 0 <= k < v@.len() ==> #[trigger] v@[k] == min + k * step,
        decreases max - cur,
    {
        proof {
            assert(min + (v@.len() as int) * step == cur + step) by (nonlinear_arith)
                requires
                    cur == min + (v@.len() - 1) * step,
            ;
        }
        cur = cur + step;
        v.push(cur);
    }
    proof {
        let k = v@.len() - 1;
        assert(max - min == k * step + (max - cur)) by (nonlinear_arith)
            requires
                cur == min + k * step,
        ;
        lemma_fundamental_div_mod_converse(max - min, step as int, k, max - cur);
    }
    Ok(v)
}

} // verus!
