use vstd::prelude::*;
use crate::heuristics::Heuristic;

verus! {

/// Why a configuration is refused.
#[derive(Clone, Copy, PartialEq, Eq, Structural, Hash, Debug)]
pub enum ConfigError {
    /// No entities at all.
    NoEntities,
    /// An odd number of entities: crossover pairs them.
    OddEntities,
    /// No heuristic to weight.
    NoHeuristics,
}

/// The integer settings of a training run. The mutation rate, a
/// probability, is held by the caller.
pub struct Config {
    pub n_entities: usize,
    pub max_drops: Option<usize>,
    pub max_populations: Option<usize>,
    pub max_non_progress_populations: Option<usize>,
    pub heuristics_used: Vec<Heuristic>,
}

impl Config {
    /// Accepts a positive even number of entities and at least one
    /// heuristic; the checks come in that order.
    pub fn validate(&self) -> (r: Result<(), ConfigError>)
        ensures
            self.n_entities == 0 ==> r == Err::<(), ConfigError>(ConfigError::NoEntities),
            self.n_entities > 0 && self.n_entities % 2 == 1 ==> r == Err::<(), ConfigError>(
                ConfigError::OddEntities,
            ),
            self.n_entities > 0 && self.n_entities % 2 == 0 && self.heuristics_used@.len() == 0 ==> r
                == Err::<(), ConfigError>(ConfigError::NoHeuristics),
            r.is_ok() == (self.n_entities > 0 && self.n_entities % 2 == 0
                && self.heuristics_used@.len() > 0),
    {
        if self.n_entities == 0 {
            return Err(ConfigError::NoEntities);
        }
        if self.n_entities % 2 != 0 {
            return Err(ConfigError::OddEntities);
        }
        if self.heuristics_used.len() == 0 {
            return Err(ConfigError::NoHeuristics);
        }
        Ok(())
    }
}

pub open spec fn min_of(s: Seq<u64>) -> int
    decreases s.len(),
{
    if s.len() <= 1 {
        s[0] as int
    } else {
        let m = min_of(s.drop_last());
        if (s.last() as int) < m {
            s.last() as int
        } else {
            m
        }
    }
}

pub open spec fn sum_of(s: Seq<u64>) -> int
    decreases s.len(),
{
    if s.len() == 0 {
        0
    } else {
        sum_of(s.drop_last()) + s.last()
    }
}

proof fn lemma_min_of(s: Seq<u64>)
    requires
        s.len() > 0,
    ensures
        forall|i: int| 0 <= i < s.len() ==> min_of(s) <= #[trigger] s[i],
        exists|i: int| 0 <= i < s.len() && min_of(s) == #[trigger] s[i],
    decreases s.len(),
{
    if s.len() > 1 {
        lemma_min_of(s.drop_last());
        assert forall|i: int| 0 <= i < s.len() implies min_of(s) <= #[trigger] s[i] by {
            if i < s.len() - 1 {
                assert(s.drop_last()[i] == s[i]);
            }
        }
        let m = min_of(s.drop_last());
        if (s.last() as int) >= m {
            let i = choose|i: int| 0 <= i < s.len() - 1 && m == #[trigger] s.drop_last()[i];
            assert(s[i] == s.drop_last()[i]);
            assert(min_of(s) == s[i]);
            assert(exists|i: int| 0 <= i < s.len() && min_of(s) == #[trigger] s[i]);
        } else {
            assert(min_of(s) == s[s.len() - 1]);
            assert(exists|i: int| 0 <= i < s.len() && min_of(s) == #[trigger] s[i]);
        }
    } else {
        assert(min_of(s) == s[0]);
        assert(exists|i: int| 0 <= i < s.len() && min_of(s) == #[trigger] s[i]);
    }
}

/// Fitness-proportionate weights: each fitness minus the smallest fitness,
/// plus one, so that every entity keeps a chance and the least fit the
/// smallest.
pub fn selection_weights(fitness: &Vec<u64>) -> (r: Vec<u64>)
    requires
        fitness@.len() > 0,
        forall|i: int| 0 <= i < fitness@.len() ==> #[trigger] fitness@[i] < u64::MAX,
    ensures
        r@.len() == fitness@.len(),
        forall|i: int| 0 <= i < r@.len() ==> #[trigger] r@[i] == fitness@[i] - min_of(fitness@) + 1,
{
    let mut min = fitness[0];
    let mut i: usize = 1;
    while i < fitness.len()
        invariant
            1 <= i <= fitness@.len(),
            min == min_of(fitness@.subrange(0, i as int)),
        decreases fitness@.len() - i,
    {
        proof {
            assert(fitness@.subrange(0, i as int + 1).drop_last() =~= fitness@.subrange(0, i as int));
        }
        if fitness[i] < min {
            min = fitness[i];
        }
        i += 1;
    }
    proof {
        assert(fitness@.subrange(0, fitness@.len() as int) =~= fitness@);
        lemma_min_of(fitness@);
    }
    let mut r: Vec<u64> = Vec::new();
    let mut j: usize = 0;
    while j < fitness.len()
        invariant
            j <= fitness@.len(),
            min == min_of(fitness@),
            forall|i: int| 0 <= i < fitness@.len() ==> min <= #[trigger] fitness@[i],
            forall|i: int| 0 <= i < fitness@.len() ==> #[trigger] fitness@[i] < u64::MAX,
            r@.len() == j,
            forall|i: int| 0 <= i < j ==> #[trigger] r@[i] == fitness@[i] - min + 1,
        decreases fitness@.len() - j,
    {
        r.push(fitness[j] - min + 1);
        j += 1;
    }
    r
}

/// Relies on rand's `WeightedIndex::new` and one `sample` from the
/// thread-local generator: for a non-empty list of weights whose sum is
/// positive and fits (the cases that `new` accepts), an index drawn with
/// probability proportional to its weight, so never one of weight zero.
#[verifier::external_body]
fn draw_weighted(weights: &Vec<u64>) -> (r: Option<usize>)
    requires
        weights@.len() > 0,
        0 < sum_of(weights@) <= u64::MAX,
    ensures
        r.is_some(),
        r.unwrap() < weights@.len(),
        weights@[r.unwrap() as int] > 0,
{
    match rand::distributions::WeightedIndex::new(weights.iter()) {
        Ok(d) => Some(rand::distributions::Distribution::sample(&d, &mut rand::thread_rng())),
        Err(_) => None,
    }
}

proof fn lemma_sum_bound(s: Seq<u64>, bound: int)
    requires
        forall|i: int| 0 <= i < s.len() ==> 1 <= #[trigger] s[i] <= bound,
    ensures
        s.len() <= sum_of(s) <= s.len() * bound,
    decreases s.len(),
{
    if s.len() > 0 {
        lemma_sum_bound(s.drop_last(), bound);
        assert(s.last() == s[s.len() - 1]);
        assert(s.len() * bound == (s.len() - 1) * bound + bound) by (nonlinear_arith);
    }
}

/// Largest fitness value the selection takes: room for the weights' sum.
pub const MAX_FITNESS: u64 = 0xffff_ffff_ffff;

/// Largest population the selection takes.
pub const MAX_POPULATION: usize = 0xffff;

/// Roulette-wheel selection with replacement: `n` indices into `fitness`,
/// each drawn with probability proportional to its weight of
/// `selection_weights`, so every index may be drawn.
pub fn select_survivors(fitness: &Vec<u64>, n: usize) -> (r: Vec<usize>)
    requires
        0 < fitness@.len() <= MAX_POPULATION,
        forall|i: int| 0 <= i < fitness@.len() ==> #[trigger] fitness@[i] <= MAX_FITNESS,
    ensures
        r@.len() == n,
        forall|k: int| 0 <= k < n ==> #[trigger] r@[k] < fitness@.len(),
{
    let weights = selection_weights(fitness);
    proof {
        assert forall|i: int| 0 <= i < weights@.len() implies 1 <= #[trigger] weights@[i] <= MAX_FITNESS + 1 by {
            lemma_min_of(fitness@);
            assert(min_of(fitness@) <= fitness@[i]);
            let m = choose|j: int| 0 <= j < fitness@.len() && min_of(fitness@) == #[trigger] fitness@[j];
            assert(min_of(fitness@) >= 0);
        }
        lemma_sum_bound(weights@, MAX_FITNESS + 1);
        assert(weights@.len() * (MAX_FITNESS + 1) <= MAX_POPULATION * (MAX_FITNESS + 1)) by (nonlinear_arith)
            requires weights@.len() <= MAX_POPULATION;
    }
    let mut r: Vec<usize> = Vec::new();
    let mut k: usize = 0;
    while k < n
        invariant
            k <= n,
            weights@.len() == fitness@.len(),
            weights@.len() > 0,
            0 < sum_of(weights@) <= u64::MAX,
            r@.len() == k,
            forall|j: int| 0 <= j < k ==> #[trigger] r@[j] < fitness@.len(),
        decreases n - k,
    {
        let idx = match draw_weighted(&weights) {
            Some(i) => i,
            None => 0,
        };
        r.push(idx);
        k += 1;
    }
    r
}

/// The controller's record across generations: how many have run, the best
/// fitness seen, and for how many generations in a row it has not improved.
pub struct TrainingProgress {
    pub generation: usize,
    pub best_fitness: Option<u64>,
    pub non_progress: usize,
    pub max_populations: Option<usize>,
    pub max_non_progress: Option<usize>,
}

impl TrainingProgress {
    pub fn new(max_populations: Option<usize>, max_non_progress: Option<usize>) -> (r: TrainingProgress)
        ensures
            r.generation == 0,
            r.best_fitness.is_none(),
            r.non_progress == 0,
            r.max_populations == max_populations,
            r.max_non_progress == max_non_progress,
    {
        TrainingProgress { generation: 0, best_fitness: None, non_progress: 0, max_populations, max_non_progress }
    }

    /// Another generation is due: the generation limit, if any, is not
    /// reached, and the run of generations without improvement, if limited,
    /// does not exceed its limit.
    pub fn should_continue(&self) -> (r: bool)
        ensures
            r == ((self.max_populations matches Some(m) ==> self.generation < m)
                && (self.max_non_progress matches Some(m) ==> self.non_progress <= m)),
    {
        let below_limit = match self.max_populations {
            Some(m) => self.generation < m,
            None => true,
        };
        let progressing = match self.max_non_progress {
            Some(m) => self.non_progress <= m,
            None => true,
        };
        below_limit && progressing
    }

    /// Records a finished generation with the best fitness among its
    /// entities. The best fitness seen is replaced only when strictly
    /// improved, so it never decreases; returns whether it was replaced.
    pub fn record_generation(&mut self, generation_best: u64) -> (improved: bool)
        requires
            old(self).generation < usize::MAX,
            old(self).non_progress < usize::MAX,
        ensures
            improved == (old(self).best_fitness matches Some(b) ==> generation_best > b),
            final(self).best_fitness == if improved {
                Some(generation_best)
            } else {
                old(self).best_fitness
            },
            old(self).best_fitness matches Some(b) ==> (final(self).best_fitness matches Some(b2) && b2 >= b),
            final(self).non_progress == if improved { 0 } else { old(self).non_progress + 1 },
            final(self).generation == old(self).generation + 1,
            final(self).max_populations == old(self).max_populations,
            final(self).max_non_progress == old(self).max_non_progress,
    {
        let improved = match self.best_fitness {
            Some(b) => generation_best > b,
            None => true,
        };
        if improved {
            self.best_fitness = Some(generation_best);
            self.non_progress = 0;
        } else {
            self.non_progress = self.non_progress + 1;
        }
        self.generation = self.generation + 1;
        improved
    }
}

} // verus!
