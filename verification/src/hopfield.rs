use vstd::prelude::*;

use crate::sums::{sum, to_int32, lemma_sum_take_step, lemma_sum_take_all};

verus! {

/// Error cases for Hopfield networks.
#[derive(Clone, Copy, Debug, PartialEq, Eq, Structural)]
pub enum HopfieldError {
    /// A state or pattern has the wrong length, or the overlap matrix of
    /// the pseudo-inverse rule could not be inverted.
    DimensionMismatch,
    /// A state or pattern entry is not +1 or -1.
    InvalidStateValue,
    /// A grid-shaped display needs a square neuron count.
    NotPerfectSquare,
}

/// The rule used to compute the weight matrix from the stored patterns.
#[derive(Clone, Copy, Debug, PartialEq, Eq, Structural)]
pub enum TrainingRule {
    Hebbian,
    PseudoInverse,
}

/// Largest admissible neuron count: keeps every activation sum within a
/// 128-bit accumulator.
pub const MAX_NEURONS: usize = 0xFFFF_FFFF;

/// Largest admissible weight numerator magnitude.
pub const MAX_WEIGHT: i64 = 0x4000_0000_0000_0000;

/// Largest admissible number of training patterns: keeps Hebbian weights
/// and the pattern-pair matrices of the pseudo-inverse rule within range.
pub const MAX_PATTERNS: usize = 0xFFFF;

/// An upper bound on the magnitude of one energy row: the neuron bound
/// times the weight bound.
const ROW_BOUND: i128 = 0x4000_0000_0000_0000_0000_0000;

/// A discrete-time Hopfield network over bipolar states, whose entries
/// are +1 or -1.
///
/// The connection strengths are kept as exact rationals with one common
/// positive denominator: the strength from neuron `j` to neuron `i` is
/// `weights[i][j] / weight_den`.  Hebbian training always yields whole
/// numbers (`weight_den == 1`); pseudo-inverse training yields the exact
/// rational weights, with the determinant of the pattern overlap matrix
/// as the denominator.  The update dynamics only ever read the sign of an
/// activation, so they agree with the real-valued formulation.
#[derive(Debug)]
pub struct HopfieldNetwork {
    /// Number of neurons, fixed at construction.
    pub num_neurons: usize,
    /// Weight numerators; the diagonal is always zero.
    pub weights: Vec<Vec<i64>>,
    /// Common positive denominator of the weights.
    pub weight_den: i64,
}

/// A bipolar state of length `n`: every entry is +1 or -1.
pub open spec fn valid_state(s: Seq<int>, n: int) -> bool {
    s.len() == n && forall|k: int| 0 <= k < s.len() ==> s[k] == 1 || s[k] == -1
}

/// The error that state validation reports for an invalid state.
pub open spec fn state_err(s: Seq<int>, n: int) -> HopfieldError {
    if s.len() != n {
        HopfieldError::DimensionMismatch
    } else {
        HopfieldError::InvalidStateValue
    }
}

/// Integer views of the stored patterns.
pub open spec fn pat_views(patterns: Seq<Vec<i32>>) -> Seq<Seq<int>> {
    crate::sums::views_of(patterns)
}

/// The Hebbian weight numerator for a pair of distinct neurons: the sum
/// over all patterns of the product of the two entries.
pub open spec fn hebbian_w(patterns: Seq<Seq<int>>, i: int, j: int) -> int
    decreases patterns.len(),
{
    if patterns.len() == 0 {
        0
    } else {
        hebbian_w(patterns.drop_last(), i, j) + patterns.last()[i] * patterns.last()[j]
    }
}

/// Every pattern is a bipolar state of length `n`.
pub open spec fn all_patterns_valid(pats: Seq<Seq<int>>, n: int) -> bool {
    forall|k: int| 0 <= k < pats.len() ==> valid_state(#[trigger] pats[k], n)
}

/// The terms of the dot product of two equally long vectors.
pub open spec fn dot_terms(x: Seq<int>, y: Seq<int>) -> Seq<int> {
    Seq::new(x.len() as nat, |i: int| x[i] * y[i])
}

/// The dot product of two equally long vectors.
pub open spec fn dot(x: Seq<int>, y: Seq<int>) -> int {
    sum(dot_terms(x, y))
}

/// One row of the Gram matrix of the patterns.
pub open spec fn gram_row(pats: Seq<Seq<int>>, a: int) -> Seq<int> {
    Seq::new(pats.len() as nat, |b: int| dot(pats[a], pats[b]))
}

/// The Gram matrix of the patterns: entry (a, b) is the dot product of
/// patterns `a` and `b`.  The overlap matrix of the pseudo-inverse rule
/// is this matrix divided by the neuron count.
pub open spec fn gram_of(pats: Seq<Seq<int>>) -> Seq<Seq<int>> {
    Seq::new(pats.len() as nat, |a: int| gram_row(pats, a))
}

/// The terms of `sum_b am[a][b] * pats[b][j]`.
pub open spec fn inner_terms(am: Seq<Seq<int>>, pats: Seq<Seq<int>>, a: int, j: int) -> Seq<int> {
    Seq::new(pats.len() as nat, |b: int| am[a][b] * pats[b][j])
}

/// `sum_b am[a][b] * pats[b][j]`.
pub open spec fn inner_val(am: Seq<Seq<int>>, pats: Seq<Seq<int>>, a: int, j: int) -> int {
    sum(inner_terms(am, pats, a, j))
}

/// The terms of the quadratic form `sum_a pats[a][i] * inner_val(a, j)`.
pub open spec fn quad_terms(am: Seq<Seq<int>>, pats: Seq<Seq<int>>, i: int, j: int) -> Seq<int> {
    Seq::new(pats.len() as nat, |a: int| pats[a][i] * inner_val(am, pats, a, j))
}

/// The quadratic form `sum_{a,b} pats[a][i] * am[a][b] * pats[b][j]`.
pub open spec fn quad(am: Seq<Seq<int>>, pats: Seq<Seq<int>>, i: int, j: int) -> int {
    sum(quad_terms(am, pats, i, j))
}

impl HopfieldNetwork {
    /// The number of neurons, as a mathematical integer.
    pub open spec fn n(self) -> int {
        self.num_neurons as int
    }

    /// The weight numerator of the connection from neuron `j` to `i`.
    pub open spec fn w(self, i: int, j: int) -> int {
        self.weights@[i]@[j] as int
    }

    /// Well-formedness: a square weight matrix of bounded entries with a
    /// zero diagonal, and a positive denominator.
    pub open spec fn wf(self) -> bool {
        &&& 1 <= self.num_neurons <= MAX_NEURONS
        &&& self.weights@.len() == self.n()
        &&& forall|i: int| 0 <= i < self.n() ==> (#[trigger] self.weights@[i])@.len() == self.n()
        &&& forall|i: int, j: int|
            0 <= i < self.n() && 0 <= j < self.n() ==> -MAX_WEIGHT <= #[trigger] self.w(i, j)
                <= MAX_WEIGHT
        &&& forall|i: int| 0 <= i < self.n() ==> self.w(i, i) == 0
        &&& self.weight_den >= 1
    }

    /// The terms of the activation of neuron `i` in state `s`.
    pub open spec fn act_terms(self, s: Seq<int>, i: int) -> Seq<int> {
        Seq::new(self.n() as nat, |j: int| self.w(i, j) * s[j])
    }

    /// The activation of neuron `i` in state `s`: the weighted sum of the
    /// state, in weight-numerator units.
    pub open spec fn act(self, s: Seq<int>, i: int) -> int {
        sum(self.act_terms(s, i))
    }

    /// The sign-rule value of neuron `i` after one update from state `s`:
    /// +1 on positive activation, -1 on negative activation, unchanged on
    /// zero.  The denominator is positive, so the sign of the numerator
    /// activation is the sign of the real activation.
    pub open spec fn next_val(self, s: Seq<int>, i: int) -> int {
        if self.act(s, i) > 0 {
            1
        } else if self.act(s, i) < 0 {
            -1
        } else {
            s[i]
        }
    }

    /// One synchronous update of the whole state.
    pub open spec fn update_spec(self, s: Seq<int>) -> Seq<int> {
        Seq::new(self.n() as nat, |i: int| self.next_val(s, i))
    }

    /// The contributions to the energy sum of the pairs whose first
    /// neuron is `i`.
    pub open spec fn row_terms(self, s: Seq<int>, i: int) -> Seq<int> {
        Seq::new(
            self.n() as nat,
            |j: int|
                if i == j {
                    0
                } else {
                    self.w(i, j) * s[i] * s[j]
                },
        )
    }

    /// The energy contribution of one first neuron.
    pub open spec fn row_contrib(self, s: Seq<int>, i: int) -> int {
        sum(self.row_terms(s, i))
    }

    /// The per-neuron energy contributions.
    pub open spec fn rows_of(self, s: Seq<int>) -> Seq<int> {
        Seq::new(self.n() as nat, |i: int| self.row_contrib(s, i))
    }

    /// The negated energy numerator of a state: `sum_{i != j} W_ij S_i
    /// S_j` in weight-numerator units.
    pub open spec fn energy_sum(self, s: Seq<int>) -> int {
        sum(self.rows_of(s))
    }

    /// One asynchronous update: only neuron `k` changes, to the sign of
    /// its activation under the current state.
    pub open spec fn async_update_at(self, s: Seq<int>, k: int) -> Seq<int> {
        s.update(k, self.next_val(s, k))
    }

    /// The state after a run of single-neuron updates at the given
    /// neuron indices, applied left to right.
    pub open spec fn apply_choices(self, s: Seq<int>, ks: Seq<int>) -> Seq<int>
        decreases ks.len(),
    {
        if ks.len() == 0 {
            s
        } else {
            self.apply_choices(self.async_update_at(s, ks[0]), ks.skip(1))
        }
    }

    /// Configuration `b` is reachable from `a` by one full sweep of as
    /// many single-neuron updates as there are neurons.
    pub open spec fn sweep_rel(self, a: Seq<int>, b: Seq<int>) -> bool {
        exists|ks: Seq<int>|
            ks.len() == self.n() && (forall|q: int| 0 <= q < ks.len() ==> 0 <= #[trigger] ks[q]
                < self.n()) && b == self.apply_choices(a, ks)
    }

    /// Every weight numerator is zero.
    pub open spec fn all_weights_zero(self) -> bool {
        forall|i: int, j: int| 0 <= i < self.n() && 0 <= j < self.n() ==> #[trigger] self.w(i, j)
            == 0
    }

    /// The weights produced by Hebbian training on the given patterns:
    /// whole numbers, the sum over the patterns of the entry products.
    pub open spec fn hebbian_trained(self, pats: Seq<Seq<int>>) -> bool {
        &&& self.weight_den == 1
        &&& forall|i: int, j: int|
            0 <= i < self.n() && 0 <= j < self.n() ==> #[trigger] self.w(i, j) == (if i == j {
                0
            } else {
                hebbian_w(pats, i, j)
            })
    }

    /// The weights witness exact pseudo-inverse training: `am / dt` is a
    /// two-sided inverse of the Gram matrix, verified by multiplication,
    /// and the stored numerators are the neuron count times the quadratic
    /// form in that inverse, over the common denominator `dt`.
    pub open spec fn pseudo_witness(self, pats: Seq<Seq<int>>, am: Seq<Seq<int>>, dt: int) -> bool {
        &&& dt >= 1
        &&& crate::matrix::square(am, pats.len() as int)
        &&& crate::matrix::is_scaled_identity(gram_of(pats), am, dt, pats.len() as int)
        &&& self.weight_den == dt
        &&& forall|i: int, j: int|
            0 <= i < self.n() && 0 <= j < self.n() ==> #[trigger] self.w(i, j) == (if i == j {
                0
            } else {
                self.n() * quad(am, pats, i, j)
            })
    }

    /// The weights are the exact pseudo-inverse weights for the patterns.
    pub open spec fn pseudo_trained(self, pats: Seq<Seq<int>>) -> bool {
        exists|am: Seq<Seq<int>>, dt: int| self.pseudo_witness(pats, am, dt)
    }

    /// Computes the weight matrix from the given patterns, replacing any
    /// previous weights outright.  An empty pattern set leaves the weights
    /// zero; every pattern must be a bipolar state of the network's size.
    /// Under the pseudo-inverse rule a singular pattern overlap matrix is
    /// an error, reported as `DimensionMismatch`, and the weights are left
    /// zero; the same error reports the rare case of an intermediate
    /// value outside the 64-bit range.  A single stored pattern has a
    /// trivially invertible overlap matrix, so pseudo-inverse training on
    /// one valid pattern always succeeds.
    #[verifier::rlimit(30)]
    pub fn train(&mut self, patterns: &Vec<Vec<i32>>, rule: TrainingRule) -> (r: Result<
        (),
        HopfieldError,
    >)
        requires
            old(self).wf(),
            patterns@.len() <= MAX_PATTERNS,
        ensures
            final(self).wf(),
            final(self).num_neurons == old(self).num_neurons,
            patterns@.len() == 0 ==> r is Ok && final(self).all_weights_zero()
                && final(self).weight_den == 1,
            patterns@.len() > 0 && !all_patterns_valid(pat_views(patterns@), old(self).n())
                ==> *final(self) == *old(self) && (exists|k: int|
                0 <= k < patterns@.len() && !valid_state(
                    #[trigger] pat_views(patterns@)[k],
                    old(self).n(),
                ) && r == Err::<(), HopfieldError>(
                    state_err(pat_views(patterns@)[k], old(self).n()),
                ) && (forall|t: int|
                    0 <= t < k ==> valid_state(pat_views(patterns@)[t], old(self).n()))),
            patterns@.len() > 0 && all_patterns_valid(pat_views(patterns@), old(self).n()) && rule
                == TrainingRule::Hebbian ==> r is Ok && final(self).hebbian_trained(
                pat_views(patterns@),
            ),
            patterns@.len() > 0 && all_patterns_valid(pat_views(patterns@), old(self).n()) && rule
                == TrainingRule::PseudoInverse && r is Ok ==> final(self).pseudo_trained(
                pat_views(patterns@),
            ),
            patterns@.len() > 0 && all_patterns_valid(pat_views(patterns@), old(self).n()) && rule
                == TrainingRule::PseudoInverse && r is Err ==> r == Err::<(), HopfieldError>(
                HopfieldError::DimensionMismatch,
            ) && final(self).all_weights_zero() && final(self).weight_den == 1,
            patterns@.len() == 1 && all_patterns_valid(pat_views(patterns@), old(self).n()) && rule
                == TrainingRule::PseudoInverse ==> r is Ok,
    {
        let ghost pats = pat_views(patterns@);
        let n = self.num_neurons;
        if patterns.len() == 0 {
            self.weights = zero_weights(n);
            self.weight_den = 1;
            return Ok(());
        }

        let mut k: usize = 0;
        while k < patterns.len()
            invariant
                *self == *old(self),
                self.wf(),
                n == self.num_neurons,
                pats == pat_views(patterns@),
                patterns@.len() > 0,
                k <= patterns@.len(),
                forall|t: int| 0 <= t < k ==> valid_state(#[trigger] pats[t], n as int),
            decreases patterns@.len() - k,
        {
            match validate_state(&patterns[k], n) {
                Ok(_) => {},
                Err(e) => {
                    proof {
                        assert(!valid_state(pats[k as int], n as int));
                        assert(e == state_err(pats[k as int], n as int));
                    }
                    return Err(e);
                },
            }
            k += 1;
        }
        assert(all_patterns_valid(pats, n as int));

        // Training rewrites the weights wholesale; they are zeroed first,
        // so a failed pseudo-inverse run leaves a well-formed zero matrix.
        self.weights = zero_weights(n);
        self.weight_den = 1;

        match rule {
            TrainingRule::Hebbian => {
                let m = hebbian_matrix(patterns, n);
                self.weights = m;
                proof {
                    assert(self.hebbian_trained(pats));
                }
                Ok(())
            },
            TrainingRule::PseudoInverse => {
                match pseudo_weights(patterns, n) {
                    Some(pair) => {
                        let (m, dt) = pair;
                        self.weights = m;
                        self.weight_den = dt;
                        proof {
                            let pl = patterns@.len() as int;
                            let am = choose|am: Seq<Seq<int>>|
                                crate::matrix::square(am, pl)
                                    && crate::matrix::is_scaled_identity(
                                    gram_of(pats),
                                    am,
                                    dt as int,
                                    pl,
                                ) && (forall|i: int, j: int|
                                    0 <= i < n && 0 <= j < n && i != j
                                        ==> #[trigger] self.weights@[i]@[j] as int == n * quad(
                                        am,
                                        pats,
                                        i,
                                        j,
                                    ));
                            assert(self.pseudo_witness(pats, am, dt as int));
                        }
                        Ok(())
                    },
                    None => Err(HopfieldError::DimensionMismatch),
                }
            },
        }
    }

    /// Creates a network with every weight zero.  The neuron count must be
    /// positive; the upper bound keeps all later arithmetic in range.
    pub fn new(num_neurons: usize) -> (r: Self)
        requires
            1 <= num_neurons <= MAX_NEURONS,
        ensures
            r.wf(),
            r.num_neurons == num_neurons,
            forall|i: int, j: int|
                0 <= i < num_neurons && 0 <= j < num_neurons ==> r.w(i, j) == 0,
            r.weight_den == 1,
    {
        let weights = zero_weights(num_neurons);
        HopfieldNetwork { num_neurons, weights, weight_den: 1 }
    }

    /// Returns the number of neurons in the network.
    pub fn size(&self) -> (r: usize)
        ensures
            r == self.num_neurons,
    {
        self.num_neurons
    }

    /// Performs a single synchronous update step of all neurons: each
    /// neuron takes the sign of its activation under the current state,
    /// keeping its value on a zero activation.
    pub fn update_step(&self, current_state: &Vec<i32>) -> (r: Result<Vec<i32>, HopfieldError>)
        requires
            self.wf(),
        ensures
            r is Ok <==> valid_state(to_int32(current_state@), self.n()),
            !valid_state(to_int32(current_state@), self.n()) ==> r == Err::<
                Vec<i32>,
                HopfieldError,
            >(state_err(to_int32(current_state@), self.n())),
            r is Ok ==> to_int32(r->Ok_0@) == self.update_spec(to_int32(current_state@)),
            r is Ok ==> valid_state(to_int32(r->Ok_0@), self.n()),
    {
        validate_state(current_state, self.num_neurons)?;
        let ghost s = to_int32(current_state@);
        let n = self.num_neurons;
        let mut next: Vec<i32> = Vec::new();
        let mut i: usize = 0;
        while i < n
            invariant
                self.wf(),
                n == self.num_neurons,
                valid_state(s, n as int),
                s == to_int32(current_state@),
                current_state@.len() == n,
                i <= n,
                next@.len() == i,
                forall|t: int| 0 <= t < i ==> #[trigger] next@[t] as int == self.next_val(s, t),
                forall|t: int| 0 <= t < i ==> next@[t] as int == 1 || next@[t] as int == -1,
            decreases n - i,
        {
            proof {
                assert(s[i as int] == 1 || s[i as int] == -1);
                assert(current_state@[i as int] == 1i32 || current_state@[i as int] == -1i32);
            }
            let h = self.activation(current_state, i);
            let v: i32 = if h > 0 {
                1
            } else if h < 0 {
                -1
            } else {
                current_state[i]
            };
            next.push(v);
            i += 1;
        }
        proof {
            assert(to_int32(next@) =~= self.update_spec(s));
        }
        Ok(next)
    }

    /// Performs a single asynchronous update step on one neuron chosen
    /// uniformly at random: that neuron takes the sign of its activation
    /// under the current state, in place.
    pub fn update_step_async(&self, state: &mut Vec<i32>, rng: &mut rand::rngs::StdRng) -> (r:
        Result<(), HopfieldError>)
        requires
            self.wf(),
        ensures
            r is Ok <==> valid_state(to_int32(old(state)@), self.n()),
            !valid_state(to_int32(old(state)@), self.n()) ==> r == Err::<(), HopfieldError>(
                state_err(to_int32(old(state)@), self.n()),
            ) && final(state)@ == old(state)@,
            r is Ok ==> exists|k: int|
                0 <= k < self.n() && to_int32(final(state)@) == self.async_update_at(
                    to_int32(old(state)@),
                    k,
                ),
            r is Ok ==> valid_state(to_int32(final(state)@), self.n()),
    {
        match validate_state(state, self.num_neurons) {
            Ok(_) => {},
            Err(e) => {
                return Err(e);
            },
        }
        let ghost s = to_int32(state@);
        let k = crate::rng::gen_below(rng, self.num_neurons);
        let h = self.activation(state, k);
        proof {
            assert(s[k as int] == 1 || s[k as int] == -1);
            assert(state@[k as int] == 1i32 || state@[k as int] == -1i32);
        }
        let v: i32 = if h > 0 {
            1
        } else if h < 0 {
            -1
        } else {
            state[k]
        };
        state.set(k, v);
        proof {
            assert(to_int32(state@) =~= self.async_update_at(s, k as int));
        }
        Ok(())
    }

    /// The activation of one neuron: the weighted sum of the state, in
    /// weight-numerator units.  The bounded weights and the bounded
    /// neuron count keep the sum within an `i128`.
    fn activation(&self, state: &Vec<i32>, i: usize) -> (r: i128)
        requires
            self.wf(),
            valid_state(to_int32(state@), self.n()),
            i < self.num_neurons,
        ensures
            r == self.act(to_int32(state@), i as int),
    {
        let ghost s = to_int32(state@);
        let ghost terms = self.act_terms(s, i as int);
        let n = self.num_neurons;
        let mut acc: i128 = 0;
        let mut j: usize = 0;
        while j < n
            invariant
                self.wf(),
                n == self.num_neurons,
                valid_state(s, n as int),
                s == to_int32(state@),
                state@.len() == n,
                i < n,
                terms == self.act_terms(s, i as int),
                j <= n,
                acc == sum(terms.take(j as int)),
                -(j as int) * MAX_WEIGHT <= acc <= (j as int) * MAX_WEIGHT,
            decreases n - j,
        {
            proof {
                assert(s[j as int] == 1 || s[j as int] == -1);
                assert(state@[j as int] == 1i32 || state@[j as int] == -1i32);
            }
            let wv = self.weights[i][j] as i128;
            let sv = state[j] as i128;
            proof {
                lemma_sum_take_step(terms, j as int);
                assert(terms[j as int] == self.w(i as int, j as int) * s[j as int]);
                if s[j as int] == 1 {
                    assert(terms[j as int] == self.w(i as int, j as int));
                    assert(wv * sv == wv);
                } else {
                    assert(terms[j as int] == -self.w(i as int, j as int));
                    assert(wv * sv == -wv);
                }
            }
            acc = acc + wv * sv;
            j += 1;
        }
        proof {
            lemma_sum_take_all(terms);
        }
        acc
    }

    /// Runs the synchronous dynamics from an initial state until the
    /// state repeats from one step to the next or `max_iterations` steps
    /// were taken.  Returns the visited states, the initial one first,
    /// and the number of the iteration at which the run stopped.
    pub fn run(&self, initial_state: &Vec<i32>, max_iterations: usize) -> (r: Result<
        (Vec<Vec<i32>>, usize),
        HopfieldError,
    >)
        requires
            self.wf(),
        ensures
            r is Ok <==> valid_state(to_int32(initial_state@), self.n()),
            !valid_state(to_int32(initial_state@), self.n()) ==> r == Err::<
                (Vec<Vec<i32>>, usize),
                HopfieldError,
            >(state_err(to_int32(initial_state@), self.n())),
            r is Ok ==> (r->Ok_0).1 <= max_iterations,
            r is Ok ==> pat_views((r->Ok_0).0@).len() >= 1,
            r is Ok ==> pat_views((r->Ok_0).0@)[0] == to_int32(initial_state@),
            r is Ok ==> forall|t: int|
                0 <= t < pat_views((r->Ok_0).0@).len() - 1 ==> pat_views((r->Ok_0).0@)[t + 1]
                    == self.update_spec(#[trigger] pat_views((r->Ok_0).0@)[t]),
            r is Ok && (r->Ok_0).1 < max_iterations ==> pat_views((r->Ok_0).0@).len() == (
            r->Ok_0).1 + 2 && pat_views((r->Ok_0).0@).last() == pat_views((r->Ok_0).0@)[(
            r->Ok_0).1 as int],
            r is Ok && (r->Ok_0).1 == max_iterations ==> pat_views((r->Ok_0).0@).len()
                == max_iterations + 1,
            r is Ok ==> forall|t: int|
                0 <= t < (r->Ok_0).1 ==> pat_views((r->Ok_0).0@)[t + 1] != #[trigger] pat_views(
                    (r->Ok_0).0@,
                )[t],
    {
        validate_state(initial_state, self.num_neurons)?;
        let ghost s0 = to_int32(initial_state@);
        let mut states_history: Vec<Vec<i32>> = Vec::new();
        states_history.push(crate::chip_firing::copy_vec_i32(initial_state));
        let mut current = crate::chip_firing::copy_vec_i32(initial_state);
        let mut i: usize = 0;
        while i < max_iterations
            invariant
                self.wf(),
                valid_state(s0, self.n()),
                s0 == to_int32(initial_state@),
                i <= max_iterations,
                valid_state(to_int32(current@), self.n()),
                pat_views(states_history@).len() == i + 1,
                pat_views(states_history@)[0] == s0,
                to_int32(current@) == pat_views(states_history@)[i as int],
                forall|t: int|
                    0 <= t < i ==> pat_views(states_history@)[t + 1] == self.update_spec(
                        #[trigger] pat_views(states_history@)[t],
                    ),
                forall|t: int|
                    0 <= t < i ==> pat_views(states_history@)[t + 1] != #[trigger] pat_views(
                        states_history@,
                    )[t],
            decreases max_iterations - i,
        {
            let next = match self.update_step(&current) {
                Ok(v) => v,
                Err(e) => {
                    proof {
                        assert(false);
                    }
                    return Err(e);
                },
            };
            let ghost pre_hist = states_history@;
            states_history.push(crate::chip_firing::copy_vec_i32(&next));
            proof {
                assert(pat_views(states_history@) =~= pat_views(pre_hist).push(
                    to_int32(next@),
                ));
            }
            if vec_i32_eq(&current, &next) {
                return Ok((states_history, i));
            }
            proof {
                if to_int32(current@) == to_int32(next@) {
                    assert forall|t: int| 0 <= t < current@.len() implies current@[t]
                        == next@[t] by {
                        assert(to_int32(current@)[t] == to_int32(next@)[t]);
                    }
                    assert(current@ =~= next@);
                }
            }
            current = next;
            i += 1;
        }
        Ok((states_history, max_iterations))
    }

    /// Runs the asynchronous dynamics from an initial state.  One
    /// iteration is a full sweep of as many single-neuron updates as
    /// there are neurons, each at a neuron chosen at random; the run
    /// stops when a sweep leaves the state unchanged or after
    /// `max_iterations` sweeps.
    pub fn run_async(
        &self,
        initial_state: &Vec<i32>,
        max_iterations: usize,
        rng: &mut rand::rngs::StdRng,
    ) -> (r: Result<(Vec<Vec<i32>>, usize), HopfieldError>)
        requires
            self.wf(),
        ensures
            r is Ok <==> valid_state(to_int32(initial_state@), self.n()),
            !valid_state(to_int32(initial_state@), self.n()) ==> r == Err::<
                (Vec<Vec<i32>>, usize),
                HopfieldError,
            >(state_err(to_int32(initial_state@), self.n())),
            r is Ok ==> (r->Ok_0).1 <= max_iterations,
            r is Ok ==> pat_views((r->Ok_0).0@).len() >= 1,
            r is Ok ==> pat_views((r->Ok_0).0@)[0] == to_int32(initial_state@),
            r is Ok ==> forall|t: int|
                0 <= t < pat_views((r->Ok_0).0@).len() - 1 ==> self.sweep_rel(
                    #[trigger] pat_views((r->Ok_0).0@)[t],
                    pat_views((r->Ok_0).0@)[t + 1],
                ),
            r is Ok && (r->Ok_0).1 < max_iterations ==> pat_views((r->Ok_0).0@).len() == (
            r->Ok_0).1 + 2 && pat_views((r->Ok_0).0@).last() == pat_views((r->Ok_0).0@)[(
            r->Ok_0).1 as int],
            r is Ok && (r->Ok_0).1 == max_iterations ==> pat_views((r->Ok_0).0@).len()
                == max_iterations + 1,
            r is Ok ==> forall|t: int|
                0 <= t < (r->Ok_0).1 ==> pat_views((r->Ok_0).0@)[t + 1] != #[trigger] pat_views(
                    (r->Ok_0).0@,
                )[t],
    {
        validate_state(initial_state, self.num_neurons)?;
        let ghost s0 = to_int32(initial_state@);
        let mut states_history: Vec<Vec<i32>> = Vec::new();
        states_history.push(crate::chip_firing::copy_vec_i32(initial_state));
        let mut current = crate::chip_firing::copy_vec_i32(initial_state);
        let mut i: usize = 0;
        while i < max_iterations
            invariant
                self.wf(),
                valid_state(s0, self.n()),
                s0 == to_int32(initial_state@),
                i <= max_iterations,
                valid_state(to_int32(current@), self.n()),
                pat_views(states_history@).len() == i + 1,
                pat_views(states_history@)[0] == s0,
                to_int32(current@) == pat_views(states_history@)[i as int],
                forall|t: int|
                    0 <= t < i ==> self.sweep_rel(
                        #[trigger] pat_views(states_history@)[t],
                        pat_views(states_history@)[t + 1],
                    ),
                forall|t: int|
                    0 <= t < i ==> pat_views(states_history@)[t + 1] != #[trigger] pat_views(
                        states_history@,
                    )[t],
            decreases max_iterations - i,
        {
            let before = crate::chip_firing::copy_vec_i32(&current);
            let ghost sweep_start = to_int32(current@);
            let ghost mut ks: Seq<int> = Seq::empty();
            let mut u: usize = 0;
            while u < self.num_neurons
                invariant
                    self.wf(),
                    u <= self.num_neurons,
                    valid_state(to_int32(current@), self.n()),
                    ks.len() == u,
                    forall|q: int| 0 <= q < ks.len() ==> 0 <= #[trigger] ks[q] < self.n(),
                    to_int32(current@) == self.apply_choices(sweep_start, ks),
                decreases self.num_neurons - u,
            {
                let ghost pre_state = to_int32(current@);
                match self.update_step_async(&mut current, rng) {
                    Ok(_) => {},
                    Err(e) => {
                        proof {
                            assert(false);
                        }
                        return Err(e);
                    },
                }
                proof {
                    let k = choose|k: int|
                        0 <= k < self.n() && to_int32(current@) == self.async_update_at(
                            pre_state,
                            k,
                        );
                    lemma_apply_push(*self, sweep_start, ks, k);
                    ks = ks.push(k);
                }
                u += 1;
            }
            let ghost pre_hist = states_history@;
            states_history.push(crate::chip_firing::copy_vec_i32(&current));
            proof {
                assert(pat_views(states_history@) =~= pat_views(pre_hist).push(
                    to_int32(current@),
                ));
                assert(self.sweep_rel(sweep_start, to_int32(current@)));
            }
            if vec_i32_eq(&current, &before) {
                return Ok((states_history, i));
            }
            proof {
                if to_int32(current@) == to_int32(before@) {
                    assert forall|t: int| 0 <= t < current@.len() implies current@[t]
                        == before@[t] by {
                        assert(to_int32(current@)[t] == to_int32(before@)[t]);
                    }
                    assert(current@ =~= before@);
                }
                assert(to_int32(before@) == sweep_start);
            }
            i += 1;
        }
        Ok((states_history, max_iterations))
    }

    /// Prunes the weight matrix to a random graph: each connection
    /// between a pair of distinct neurons is kept with probability
    /// `p_num / p_den`, and otherwise both directed weights of the pair
    /// are set to zero, preserving symmetry.  The endpoints are
    /// deterministic: probability zero prunes every connection and
    /// probability one keeps every connection.  A probability above one,
    /// or a zero denominator, leaves the network unchanged.
    #[verifier::loop_isolation(false)]
    pub fn apply_erdos_renyi_topology(
        &mut self,
        p_num: u64,
        p_den: u64,
        rng: &mut rand::rngs::StdRng,
    )
        requires
            old(self).wf(),
        ensures
            final(self).wf(),
            final(self).num_neurons == old(self).num_neurons,
            final(self).weight_den == old(self).weight_den,
            p_den == 0 || p_num > p_den ==> *final(self) == *old(self),
            forall|x: int, y: int|
                0 <= x < y < old(self).n() ==> ((final(self).w(x, y) == old(self).w(x, y)
                    && final(self).w(y, x) == old(self).w(y, x)) || (#[trigger] final(self).w(
                    x,
                    y,
                ) == 0 && final(self).w(y, x) == 0)),
            forall|x: int| 0 <= x < old(self).n() ==> final(self).w(x, x) == 0,
            p_den >= 1 && p_num == 0 ==> forall|x: int, y: int|
                0 <= x < old(self).n() && 0 <= y < old(self).n() && x != y
                    ==> #[trigger] final(self).w(x, y) == 0,
            p_den >= 1 && p_num == p_den ==> *final(self) == *old(self),
    {
        if p_den == 0 || p_num > p_den {
            return ;
        }
        let n = self.num_neurons;
        let mut i: usize = 0;
        while i < n
            invariant
                self.wf(),
                n == self.num_neurons,
                self.num_neurons == old(self).num_neurons,
                self.weight_den == old(self).weight_den,
                p_den >= 1,
                p_num <= p_den,
                i <= n,
                forall|x: int, y: int|
                    0 <= x < y < self.n() && x < i ==> ((self.w(x, y) == old(self).w(x, y)
                        && self.w(y, x) == old(self).w(y, x)) || (#[trigger] self.w(x, y) == 0
                        && self.w(y, x) == 0)),
                forall|x: int, y: int|
                    0 <= x < y < self.n() && x >= i ==> #[trigger] self.w(x, y) == old(self).w(
                        x,
                        y,
                    ) && self.w(y, x) == old(self).w(y, x),
                p_num == 0 ==> forall|x: int, y: int|
                    0 <= x < y < self.n() && x < i ==> #[trigger] self.w(x, y) == 0 && self.w(
                        y,
                        x,
                    ) == 0,
                p_num == p_den ==> *self == *old(self),
            decreases n - i,
        {
            let ghost pre = *self;
            self.prune_row(i, p_num, p_den, rng);
            proof {
                assert forall|x: int, y: int|
                    0 <= x < y < self.n() && x < i as int + 1 implies ((self.w(x, y) == old(
                        self,
                    ).w(x, y) && self.w(y, x) == old(self).w(y, x)) || (#[trigger] self.w(x, y)
                        == 0 && self.w(y, x) == 0)) by {
                    if x < i as int {
                        // Row i is the only part prune_row touched; the
                        // entries of earlier pairs sit outside it or at
                        // or before its diagonal.
                        assert(self.w(x, y) == pre.w(x, y));
                        assert(self.w(y, x) == pre.w(y, x));
                    }
                }
                if p_num == 0 {
                    assert forall|x: int, y: int|
                        0 <= x < y < self.n() && x < i as int + 1 implies #[trigger] self.w(x, y)
                        == 0 && self.w(y, x) == 0 by {
                        if x < i as int {
                            assert(self.w(x, y) == pre.w(x, y));
                            assert(self.w(y, x) == pre.w(y, x));
                        }
                    }
                }
                assert forall|x: int, y: int|
                    0 <= x < y < self.n() && x >= i as int + 1 implies #[trigger] self.w(x, y)
                    == old(self).w(x, y) && self.w(y, x) == old(self).w(y, x) by {
                    assert(self.w(x, y) == pre.w(x, y));
                    assert(self.w(y, x) == pre.w(y, x));
                }
            }
            i += 1;
        }
        proof {
            if p_num == 0 {
                assert forall|x: int, y: int|
                    0 <= x < self.n() && 0 <= y < self.n() && x != y implies #[trigger] self.w(
                    x,
                    y,
                ) == 0 by {
                    if x < y {
                        assert(self.w(x, y) == 0 && self.w(y, x) == 0);
                    } else {
                        assert(self.w(y, x) == 0 && self.w(x, y) == 0);
                    }
                }
            }
        }
    }

    /// Draws one decision for every pair that joins row `i` to a later
    /// row, zeroing both directed weights of the pairs that lose the
    /// draw.  Entries outside row `i` and column `i`, and at or before
    /// the diagonal in them, stay untouched.
    fn prune_row(&mut self, i: usize, p_num: u64, p_den: u64, rng: &mut rand::rngs::StdRng)
        requires
            old(self).wf(),
            i < old(self).n(),
            p_den >= 1,
            p_num <= p_den,
        ensures
            final(self).wf(),
            final(self).num_neurons == old(self).num_neurons,
            final(self).weight_den == old(self).weight_den,
            forall|y: int|
                #![trigger final(self).w(i as int, y)]
                #![trigger final(self).w(y, i as int)]
                i < y < old(self).n() ==> ((final(self).w(i as int, y) == old(self).w(i as int, y)
                    && final(self).w(y, i as int) == old(self).w(y, i as int)) || (final(self).w(
                    i as int,
                    y,
                ) == 0 && final(self).w(y, i as int) == 0)),
            forall|x: int, y: int|
                0 <= x < old(self).n() && 0 <= y < old(self).n() && x != i as int && y != i as int
                    ==> #[trigger] final(self).w(x, y) == old(self).w(x, y),
            forall|y: int|
                #![trigger final(self).w(i as int, y)]
                #![trigger final(self).w(y, i as int)]
                0 <= y <= i ==> final(self).w(i as int, y) == old(self).w(i as int, y)
                    && final(self).w(y, i as int) == old(self).w(y, i as int),
            p_num == 0 ==> forall|y: int|
                #![trigger final(self).w(i as int, y)]
                #![trigger final(self).w(y, i as int)]
                i < y < old(self).n() ==> final(self).w(i as int, y) == 0 && final(self).w(
                    y,
                    i as int,
                ) == 0,
            p_num == p_den ==> *final(self) == *old(self),
    {
        let n = self.num_neurons;
        let mut j: usize = i + 1;
        while j < n
            invariant
                self.wf(),
                n == self.num_neurons,
                self.num_neurons == old(self).num_neurons,
                self.weight_den == old(self).weight_den,
                p_den >= 1,
                p_num <= p_den,
                i < n,
                i < j,
                j <= n,
                forall|y: int|
                    #![trigger self.w(i as int, y)]
                    #![trigger self.w(y, i as int)]
                    i < y < j ==> ((self.w(i as int, y) == old(self).w(i as int, y) && self.w(
                        y,
                        i as int,
                    ) == old(self).w(y, i as int)) || (self.w(i as int, y) == 0 && self.w(
                        y,
                        i as int,
                    ) == 0)),
                forall|y: int|
                    #![trigger self.w(i as int, y)]
                    #![trigger self.w(y, i as int)]
                    j <= y < n ==> self.w(i as int, y) == old(self).w(i as int, y) && self.w(
                        y,
                        i as int,
                    ) == old(self).w(y, i as int),
                forall|x: int, y: int|
                    0 <= x < n && 0 <= y < n && x != i as int && y != i as int
                        ==> #[trigger] self.w(x, y) == old(self).w(x, y),
                forall|y: int|
                    #![trigger self.w(i as int, y)]
                    #![trigger self.w(y, i as int)]
                    0 <= y <= i ==> self.w(i as int, y) == old(self).w(i as int, y) && self.w(
                        y,
                        i as int,
                    ) == old(self).w(y, i as int),
                p_num == 0 ==> forall|y: int|
                    #![trigger self.w(i as int, y)]
                    #![trigger self.w(y, i as int)]
                    i < y < j ==> self.w(i as int, y) == 0 && self.w(y, i as int) == 0,
                p_num == p_den ==> *self == *old(self),
            decreases n - j,
        {
            let ghost entry = *self;
            let draw = crate::rng::gen_below_u64(rng, p_den);
            if draw >= p_num {
                self.zero_pair(i, j);
                proof {
                    assert forall|x: int, y: int|
                        0 <= x < n && 0 <= y < n && !((x == i as int && y == j as int) || (x == j
                            as int && y == i as int)) implies #[trigger] self.w(x, y) == entry.w(
                        x,
                        y,
                    ) by {}
                    assert forall|y: int|
                        j as int + 1 <= y < n implies #[trigger] self.w(i as int, y) == old(
                        self,
                    ).w(i as int, y) && self.w(y, i as int) == old(self).w(y, i as int) by {
                        assert(self.w(i as int, y) == entry.w(i as int, y));
                        assert(self.w(y, i as int) == entry.w(y, i as int));
                    }
                    assert forall|y: int|
                        0 <= y <= i implies #[trigger] self.w(i as int, y) == old(self).w(
                        i as int,
                        y,
                    ) && self.w(y, i as int) == old(self).w(y, i as int) by {
                        assert(self.w(i as int, y) == entry.w(i as int, y));
                        assert(self.w(y, i as int) == entry.w(y, i as int));
                    }
                    assert forall|x: int, y: int|
                        0 <= x < n && 0 <= y < n && x != i as int && y != i as int
                            implies #[trigger] self.w(x, y) == old(self).w(x, y) by {
                        assert(self.w(x, y) == entry.w(x, y));
                    }
                    assert forall|y: int|
                        i < y < j as int + 1 implies ((#[trigger] self.w(i as int, y) == old(
                            self,
                        ).w(i as int, y) && self.w(y, i as int) == old(self).w(y, i as int)) || (
                        self.w(i as int, y) == 0 && self.w(y, i as int) == 0)) by {
                        if y != j as int {
                            assert(self.w(i as int, y) == entry.w(i as int, y));
                            assert(self.w(y, i as int) == entry.w(y, i as int));
                        }
                    }
                    if p_num == 0 {
                        assert forall|y: int|
                            i < y < j as int + 1 implies #[trigger] self.w(i as int, y) == 0
                            && self.w(y, i as int) == 0 by {
                            if y != j as int {
                                assert(entry.w(i as int, y) == 0);
                                assert(entry.w(y, i as int) == 0);
                                assert(self.w(i as int, y) == entry.w(i as int, y));
                                assert(self.w(y, i as int) == entry.w(y, i as int));
                            }
                        }
                    }
                }
            } else {
                proof {
                    // A draw strictly below the numerator rules out a zero
                    // numerator.
                    assert(p_num >= 1);
                    assert forall|y: int|
                        j as int + 1 <= y < n implies self.w(i as int, y) == old(self).w(
                        i as int,
                        y,
                    ) && self.w(y, i as int) == old(self).w(y, i as int) by {}
                    assert forall|y: int|
                        i < y < j as int + 1 implies ((self.w(i as int, y) == old(self).w(
                            i as int,
                            y,
                        ) && self.w(y, i as int) == old(self).w(y, i as int)) || (self.w(
                            i as int,
                            y,
                        ) == 0 && self.w(y, i as int) == 0)) by {}
                }
            }
            j += 1;
        }
    }

    /// Sets both directed weights of one pair of distinct neurons to
    /// zero, leaving every other pair unchanged.
    fn zero_pair(&mut self, i: usize, j: usize)
        requires
            old(self).wf(),
            i < old(self).n(),
            j < old(self).n(),
            i != j,
        ensures
            final(self).wf(),
            final(self).num_neurons == old(self).num_neurons,
            final(self).weight_den == old(self).weight_den,
            final(self).w(i as int, j as int) == 0,
            final(self).w(j as int, i as int) == 0,
            forall|x: int, y: int|
                0 <= x < old(self).n() && 0 <= y < old(self).n() && !((x == i as int && y
                    == j as int) || (x == j as int && y == i as int)) ==> #[trigger] final(self).w(
                    x,
                    y,
                ) == old(self).w(x, y),
    {
        let mut row_i = copy_vec_i64(&self.weights[i]);
        row_i.set(j, 0);
        self.weights.set(i, row_i);
        let mut row_j = copy_vec_i64(&self.weights[j]);
        row_j.set(i, 0);
        self.weights.set(j, row_j);
        proof {
            let n0 = old(self).n();
            assert forall|x: int, y: int|
                0 <= x < n0 && 0 <= y < n0 && !((x == i as int && y == j as int) || (x == j as int
                    && y == i as int)) implies #[trigger] self.w(x, y) == old(self).w(x, y) by {}
            assert forall|x: int, y: int|
                0 <= x < n0 && 0 <= y < n0 implies -MAX_WEIGHT <= #[trigger] self.w(x, y)
                    <= MAX_WEIGHT by {
                if !((x == i as int && y == j as int) || (x == j as int && y == i as int)) {
                    assert(self.w(x, y) == old(self).w(x, y));
                }
            }
            assert forall|x: int| 0 <= x < n0 implies self.w(x, x) == 0 by {
                assert(self.w(x, x) == old(self).w(x, x));
            }
        }
    }

    /// Computes the negated energy numerator of a state: `sum_{i != j}
    /// W_ij S_i S_j` over the weight numerators, negated.  The Lyapunov
    /// energy of the state is the returned value divided by twice the
    /// weight denominator.
    pub fn energy(&self, state: &Vec<i32>) -> (r: Result<i128, HopfieldError>)
        requires
            self.wf(),
        ensures
            r is Ok <==> valid_state(to_int32(state@), self.n()),
            !valid_state(to_int32(state@), self.n()) ==> r == Err::<i128, HopfieldError>(
                state_err(to_int32(state@), self.n()),
            ),
            r is Ok ==> r->Ok_0 == -self.energy_sum(to_int32(state@)),
    {
        validate_state(state, self.num_neurons)?;
        let ghost s = to_int32(state@);
        let ghost rows = self.rows_of(s);
        let n = self.num_neurons;
        let mut acc: i128 = 0;
        let mut i: usize = 0;
        while i < n
            invariant
                self.wf(),
                n == self.num_neurons,
                valid_state(s, n as int),
                s == to_int32(state@),
                state@.len() == n,
                rows == self.rows_of(s),
                i <= n,
                acc == sum(rows.take(i as int)),
                -(i as int) * ROW_BOUND <= acc <= (i as int) * ROW_BOUND,
            decreases n - i,
        {
            let row = self.energy_row(state, i);
            proof {
                lemma_sum_take_step(rows, i as int);
                assert(rows[i as int] == self.row_contrib(s, i as int));
                assert(self.n() * (MAX_WEIGHT as int) <= ROW_BOUND as int) by (nonlinear_arith)
                    requires
                        0 <= self.n() < 0x1_0000_0000,
                ;
            }
            acc = acc + row;
            i += 1;
        }
        proof {
            lemma_sum_take_all(rows);
        }
        Ok(-acc)
    }

    /// One row of the energy sum: the contributions of all pairs whose
    /// first neuron is `i`.
    fn energy_row(&self, state: &Vec<i32>, i: usize) -> (r: i128)
        requires
            self.wf(),
            valid_state(to_int32(state@), self.n()),
            i < self.num_neurons,
        ensures
            r == self.row_contrib(to_int32(state@), i as int),
            -(self.n() * MAX_WEIGHT as int) <= r <= self.n() * MAX_WEIGHT as int,
    {
        let ghost s = to_int32(state@);
        let ghost terms = self.row_terms(s, i as int);
        let n = self.num_neurons;
        let mut acc: i128 = 0;
        let mut j: usize = 0;
        while j < n
            invariant
                self.wf(),
                n == self.num_neurons,
                valid_state(s, n as int),
                s == to_int32(state@),
                state@.len() == n,
                i < n,
                terms == self.row_terms(s, i as int),
                j <= n,
                acc == sum(terms.take(j as int)),
                -(j as int) * MAX_WEIGHT <= acc <= (j as int) * MAX_WEIGHT,
            decreases n - j,
        {
            proof {
                lemma_sum_take_step(terms, j as int);
                assert(s[i as int] == 1 || s[i as int] == -1);
                assert(s[j as int] == 1 || s[j as int] == -1);
                assert(state@[i as int] == 1i32 || state@[i as int] == -1i32);
                assert(state@[j as int] == 1i32 || state@[j as int] == -1i32);
            }
            if j != i {
                let wv = self.weights[i][j] as i128;
                let prod = (state[i] * state[j]) as i128;
                proof {
                    let si = s[i as int];
                    let sj = s[j as int];
                    assert(terms[j as int] == self.w(i as int, j as int) * si * sj);
                    if si == 1 && sj == 1 {
                        assert(terms[j as int] == self.w(i as int, j as int));
                        assert(prod == 1);
                        assert(wv * prod == wv);
                    } else if si == 1 && sj == -1 {
                        assert(terms[j as int] == -self.w(i as int, j as int));
                        assert(prod == -1);
                        assert(wv * prod == -wv);
                    } else if si == -1 && sj == 1 {
                        assert(terms[j as int] == -self.w(i as int, j as int));
                        assert(prod == -1);
                        assert(wv * prod == -wv);
                    } else {
                        assert(terms[j as int] == self.w(i as int, j as int));
                        assert(prod == 1);
                        assert(wv * prod == wv);
                    }
                }
                acc = acc + wv * prod;
            } else {
                proof {
                    assert(terms[j as int] == 0);
                }
            }
            j += 1;
        }
        proof {
            lemma_sum_take_all(terms);
        }
        acc
    }
}

impl crate::NeuralNetwork for HopfieldNetwork {
    type Input = Vec<i32>;

    type Output = Vec<Vec<i32>>;

    type Error = HopfieldError;

    open spec fn net_valid(&self) -> bool {
        self.wf()
    }

    open spec fn fwd_ok(&self, input: &Vec<i32>) -> bool {
        true
    }

    open spec fn fwd_post(
        &self,
        input: &Vec<i32>,
        r: &Result<Vec<Vec<i32>>, HopfieldError>,
    ) -> bool {
        &&& (*r is Ok <==> valid_state(to_int32(input@), self.n()))
        &&& *r is Ok ==> pat_views((*r)->Ok_0@).len() >= 1
        &&& *r is Ok ==> pat_views((*r)->Ok_0@)[0] == to_int32(input@)
        &&& *r is Ok ==> forall|t: int|
            0 <= t < pat_views((*r)->Ok_0@).len() - 1 ==> pat_views((*r)->Ok_0@)[t + 1]
                == self.update_spec(#[trigger] pat_views((*r)->Ok_0@)[t])
        &&& *r is Ok ==> (pat_views((*r)->Ok_0@).len() == 101 || self.update_spec(
            pat_views((*r)->Ok_0@).last(),
        ) == pat_views((*r)->Ok_0@).last())
    }

    open spec fn train_ok(&self, data: &Vec<Vec<i32>>) -> bool {
        data@.len() <= MAX_PATTERNS
    }

    open spec fn train_post(
        &self,
        old_net: &Self,
        data: &Vec<Vec<i32>>,
        r: &Result<(), HopfieldError>,
    ) -> bool {
        &&& data@.len() == 0 ==> *r is Ok && self.all_weights_zero()
        &&& data@.len() > 0 && !all_patterns_valid(pat_views(data@), old_net.n()) ==> *r is Err
        &&& data@.len() > 0 && all_patterns_valid(pat_views(data@), old_net.n()) && *r is Ok
            ==> self.pseudo_trained(pat_views(data@))
        &&& data@.len() > 0 && all_patterns_valid(pat_views(data@), old_net.n()) && *r is Err
            ==> self.all_weights_zero()
        &&& data@.len() == 1 && all_patterns_valid(pat_views(data@), old_net.n()) ==> *r is Ok
    }

    open spec fn size_of(&self) -> int {
        self.num_neurons as int
    }

    /// Runs the deterministic synchronous dynamics for up to one hundred
    /// steps and returns the visited states.
    fn forward(&self, input: &Vec<i32>) -> (r: Result<Vec<Vec<i32>>, HopfieldError>) {
        match self.run(input, 100) {
            Ok(pair) => {
                proof {
                    let hv = pat_views(pair.0@);
                    if (pair.1 as int) < 100 {
                        // The run stopped early, so the last two states
                        // agree and the last one is a fixed point.
                        assert(hv.last() == hv[pair.1 as int + 1]);
                        assert(hv[pair.1 as int + 1] == self.update_spec(hv[pair.1 as int]));
                        assert(self.update_spec(hv.last()) == hv.last());
                    }
                }
                Ok(pair.0)
            },
            Err(e) => Err(e),
        }
    }

    /// Trains with the pseudo-inverse rule, the more selective of the two.
    fn train(&mut self, data: &Vec<Vec<i32>>) -> (r: Result<(), HopfieldError>) {
        self.train(data, TrainingRule::PseudoInverse)
    }

    fn size(&self) -> usize {
        self.num_neurons
    }
}

/// The products in a Hebbian weight do not depend on the order of the
/// two neurons.
proof fn lemma_hebbian_w_sym(pats: Seq<Seq<int>>, i: int, j: int)
    ensures
        hebbian_w(pats, i, j) == hebbian_w(pats, j, i),
    decreases pats.len(),
{
    if pats.len() > 0 {
        lemma_hebbian_w_sym(pats.drop_last(), i, j);
        assert(pats.last()[i] * pats.last()[j] == pats.last()[j] * pats.last()[i])
            by (nonlinear_arith);
    }
}

/// Law: Hebbian training always yields a symmetric weight matrix.
pub proof fn lemma_hebbian_symmetric(net: HopfieldNetwork, pats: Seq<Seq<int>>)
    requires
        net.hebbian_trained(pats),
    ensures
        forall|i: int, j: int| 0 <= i < net.n() && 0 <= j < net.n() ==> #[trigger] net.w(i, j)
            == net.w(j, i),
{
    assert forall|i: int, j: int|
        0 <= i < net.n() && 0 <= j < net.n() implies #[trigger] net.w(i, j) == net.w(j, i) by {
        lemma_hebbian_w_sym(pats, i, j);
        assert(net.w(i, j) == (if i == j {
            0
        } else {
            hebbian_w(pats, i, j)
        }));
        assert(net.w(j, i) == (if j == i {
            0
        } else {
            hebbian_w(pats, j, i)
        }));
    }
}

/// Law: a well-formed network keeps a zero weight-matrix diagonal,
/// whatever rule trained it and whatever pruning followed.
pub proof fn lemma_diagonal_zero(net: HopfieldNetwork)
    requires
        net.wf(),
    ensures
        forall|i: int| 0 <= i < net.n() ==> net.w(i, i) == 0,
{
}

/// Law: the Hebbian weights are a function of the patterns alone, so
/// training twice with the same patterns, on any two networks of the
/// same size, yields identical weights.
pub proof fn lemma_hebbian_training_reproducible(
    g1: HopfieldNetwork,
    g2: HopfieldNetwork,
    pats: Seq<Seq<int>>,
)
    requires
        g1.num_neurons == g2.num_neurons,
        g1.hebbian_trained(pats),
        g2.hebbian_trained(pats),
    ensures
        forall|i: int, j: int| 0 <= i < g1.n() && 0 <= j < g1.n() ==> #[trigger] g1.w(i, j)
            == g2.w(i, j),
        g1.weight_den == g2.weight_den,
{
    assert forall|i: int, j: int|
        0 <= i < g1.n() && 0 <= j < g1.n() implies #[trigger] g1.w(i, j) == g2.w(i, j) by {
        assert(g1.w(i, j) == (if i == j {
            0
        } else {
            hebbian_w(pats, i, j)
        }));
        assert(g2.w(i, j) == (if i == j {
            0
        } else {
            hebbian_w(pats, i, j)
        }));
    }
}

/// Applying one more single-neuron update appends it to the run.
proof fn lemma_apply_push(net: HopfieldNetwork, s: Seq<int>, ks: Seq<int>, k: int)
    ensures
        net.apply_choices(s, ks.push(k)) == net.async_update_at(net.apply_choices(s, ks), k),
    decreases ks.len(),
{
    let kp = ks.push(k);
    if ks.len() == 0 {
        assert(kp.len() == 1);
        assert(kp[0] == k);
        assert(kp.skip(1) =~= Seq::<int>::empty());
        assert(net.apply_choices(s, kp) == net.apply_choices(
            net.async_update_at(s, k),
            kp.skip(1),
        ));
        assert(net.apply_choices(net.async_update_at(s, k), kp.skip(1))
            == net.async_update_at(s, k));
        assert(net.apply_choices(s, ks) == s);
    } else {
        assert(kp[0] == ks[0]);
        assert(kp.skip(1) =~= ks.skip(1).push(k));
        assert(net.apply_choices(s, kp) == net.apply_choices(
            net.async_update_at(s, ks[0]),
            ks.skip(1).push(k),
        ));
        lemma_apply_push(net, net.async_update_at(s, ks[0]), ks.skip(1), k);
        assert(net.apply_choices(s, ks) == net.apply_choices(
            net.async_update_at(s, ks[0]),
            ks.skip(1),
        ));
    }
}

/// Copies a vector of 64-bit values element by element.
fn copy_vec_i64(v: &Vec<i64>) -> (r: Vec<i64>)
    ensures
        r@ == v@,
{
    let mut r: Vec<i64> = Vec::new();
    let mut i: usize = 0;
    while i < v.len()
        invariant
            i <= v@.len(),
            r@ == v@.take(i as int),
        decreases v@.len() - i,
    {
        r.push(v[i]);
        proof {
            assert(r@ =~= v@.take(i as int + 1));
        }
        i += 1;
    }
    proof {
        assert(v@.take(v@.len() as int) =~= v@);
    }
    r
}

/// Compares two vectors of 32-bit values element by element.
fn vec_i32_eq(a: &Vec<i32>, b: &Vec<i32>) -> (r: bool)
    ensures
        r <==> a@ == b@,
{
    if a.len() != b.len() {
        return false;
    }
    let mut k: usize = 0;
    while k < a.len()
        invariant
            a@.len() == b@.len(),
            k <= a@.len(),
            forall|t: int| 0 <= t < k ==> a@[t] == b@[t],
        decreases a@.len() - k,
    {
        if a[k] != b[k] {
            proof {
                assert(a@[k as int] != b@[k as int]);
            }
            return false;
        }
        k += 1;
    }
    proof {
        assert(a@ =~= b@);
    }
    true
}

/// Appending one pattern adds its entry product to a Hebbian weight.
proof fn lemma_hebbian_step(pats: Seq<Seq<int>>, k: int, i: int, j: int)
    requires
        0 <= k < pats.len(),
    ensures
        hebbian_w(pats.take(k + 1), i, j) == hebbian_w(pats.take(k), i, j) + pats[k][i]
            * pats[k][j],
{
    let taken = pats.take(k + 1);
    assert(taken.drop_last() =~= pats.take(k));
    assert(taken.last() == pats[k]);
}

/// The dot product of a bipolar vector with itself is its length.
proof fn lemma_self_dot(x: Seq<int>)
    requires
        forall|k: int| 0 <= k < x.len() ==> x[k] == 1 || x[k] == -1,
    ensures
        dot(x, x) == x.len(),
{
    let terms = dot_terms(x, x);
    assert forall|k: int| 0 <= k < terms.len() implies terms[k] == 1 by {
        if x[k] == 1 {
        } else {
            assert(x[k] == -1);
        }
    }
    crate::sums::lemma_sum_const(terms, 1);
}

/// The Hebbian weight matrix of a pattern set, entry by entry.
fn hebbian_matrix(patterns: &Vec<Vec<i32>>, n: usize) -> (m: Vec<Vec<i64>>)
    requires
        1 <= patterns@.len() <= MAX_PATTERNS,
        1 <= n,
        all_patterns_valid(pat_views(patterns@), n as int),
    ensures
        m@.len() == n,
        forall|i: int| 0 <= i < n ==> (#[trigger] m@[i])@.len() == n,
        forall|i: int, j: int|
            0 <= i < n && 0 <= j < n ==> #[trigger] m@[i]@[j] as int == (if i == j {
                0
            } else {
                hebbian_w(pat_views(patterns@), i, j)
            }),
        forall|i: int, j: int|
            0 <= i < n && 0 <= j < n ==> -(MAX_PATTERNS as int) <= #[trigger] m@[i]@[j] as int
                <= MAX_PATTERNS as int,
{
    let ghost pats = pat_views(patterns@);
    let np = patterns.len();
    let mut rows: Vec<Vec<i64>> = Vec::new();
    let mut i: usize = 0;
    while i < n
        invariant
            1 <= patterns@.len() <= MAX_PATTERNS,
            np == patterns@.len(),
            pats == pat_views(patterns@),
            all_patterns_valid(pats, n as int),
            i <= n,
            rows@.len() == i,
            forall|x: int| 0 <= x < i ==> (#[trigger] rows@[x])@.len() == n,
            forall|x: int, y: int|
                0 <= x < i && 0 <= y < n ==> #[trigger] rows@[x]@[y] as int == (if x == y {
                    0
                } else {
                    hebbian_w(pats, x, y)
                }),
            forall|x: int, y: int|
                0 <= x < i && 0 <= y < n ==> -(MAX_PATTERNS as int) <= #[trigger] rows@[x]@[y]
                    as int <= MAX_PATTERNS as int,
        decreases n - i,
    {
        let mut row: Vec<i64> = Vec::new();
        let mut j: usize = 0;
        while j < n
            invariant
                1 <= patterns@.len() <= MAX_PATTERNS,
                np == patterns@.len(),
                pats == pat_views(patterns@),
                all_patterns_valid(pats, n as int),
                i < n,
                j <= n,
                row@.len() == j,
                forall|y: int|
                    0 <= y < j ==> #[trigger] row@[y] as int == (if i as int == y {
                        0
                    } else {
                        hebbian_w(pats, i as int, y)
                    }),
                forall|y: int|
                    0 <= y < j ==> -(MAX_PATTERNS as int) <= #[trigger] row@[y] as int
                        <= MAX_PATTERNS as int,
            decreases n - j,
        {
            if i == j {
                row.push(0);
            } else {
                let mut acc: i64 = 0;
                let mut k: usize = 0;
                while k < np
                    invariant
                        1 <= patterns@.len() <= MAX_PATTERNS,
                        np == patterns@.len(),
                        pats == pat_views(patterns@),
                        all_patterns_valid(pats, n as int),
                        i < n,
                        j < n,
                        k <= np,
                        acc as int == hebbian_w(pats.take(k as int), i as int, j as int),
                        -(k as int) <= acc as int <= k as int,
                    decreases np - k,
                {
                    proof {
                        lemma_hebbian_step(pats, k as int, i as int, j as int);
                        assert(valid_state(pats[k as int], n as int));
                        assert(pats[k as int][i as int] == 1 || pats[k as int][i as int] == -1);
                        assert(pats[k as int][j as int] == 1 || pats[k as int][j as int] == -1);
                        assert(patterns@[k as int]@[i as int] == 1i32 || patterns@[k as int]@[
                            i as int
                        ] == -1i32);
                        assert(patterns@[k as int]@[j as int] == 1i32 || patterns@[k as int]@[
                            j as int
                        ] == -1i32);
                    }
                    let prod = patterns[k][i] * patterns[k][j];
                    acc = acc + prod as i64;
                    k += 1;
                }
                proof {
                    assert(pats.take(np as int) =~= pats);
                }
                row.push(acc);
            }
            j += 1;
        }
        rows.push(row);
        i += 1;
    }
    rows
}

/// The exact pseudo-inverse weight numerators and their common
/// denominator, or `None` when the Gram matrix is singular or an
/// intermediate value leaves the 64-bit range.  The inverse property of
/// the returned denominator rests on an exact multiplication check, not
/// on the elimination that produced the candidate.
#[verifier::rlimit(30)]
fn pseudo_weights(patterns: &Vec<Vec<i32>>, n: usize) -> (r: Option<(Vec<Vec<i64>>, i64)>)
    requires
        1 <= patterns@.len() <= MAX_PATTERNS,
        1 <= n <= MAX_NEURONS,
        all_patterns_valid(pat_views(patterns@), n as int),
    ensures
        r is Some ==> (r->0).0@.len() == n,
        r is Some ==> forall|i: int| 0 <= i < n ==> (#[trigger] (r->0).0@[i])@.len() == n,
        r is Some ==> forall|i: int, j: int|
            0 <= i < n && 0 <= j < n ==> -MAX_WEIGHT <= #[trigger] (r->0).0@[i]@[j] <= MAX_WEIGHT,
        r is Some ==> forall|i: int| 0 <= i < n ==> (r->0).0@[i]@[i] == 0,
        r is Some ==> (r->0).1 >= 1,
        patterns@.len() == 1 ==> r is Some,
        r is Some ==> exists|am: Seq<Seq<int>>|
            crate::matrix::square(am, patterns@.len() as int) && crate::matrix::is_scaled_identity(
                gram_of(pat_views(patterns@)),
                am,
                (r->0).1 as int,
                patterns@.len() as int,
            ) && (forall|i: int, j: int|
                0 <= i < n && 0 <= j < n && i != j ==> #[trigger] (r->0).0@[i]@[j] as int == n
                    * quad(am, pat_views(patterns@), i, j)),
{
    let ghost pats = pat_views(patterns@);
    let p = patterns.len();

    if p == 1 {
        return Some(single_pattern_weights(patterns, n));
    }

    // The Gram matrix of the patterns; its entries are dot products of
    // bipolar vectors and hence bounded by the neuron count.
    let mut gram: Vec<Vec<i64>> = Vec::new();
    let mut a: usize = 0;
    while a < p
        invariant
            1 <= patterns@.len() <= MAX_PATTERNS,
            p == patterns@.len(),
            pats == pat_views(patterns@),
            all_patterns_valid(pats, n as int),
            1 <= n <= MAX_NEURONS,
            a <= p,
            gram@.len() == a,
            forall|x: int| 0 <= x < a ==> (#[trigger] gram@[x])@.len() == p,
            forall|x: int, y: int|
                0 <= x < a && 0 <= y < p ==> #[trigger] gram@[x]@[y] as int == dot(
                    pats[x],
                    pats[y],
                ),
            forall|x: int, y: int|
                0 <= x < a && 0 <= y < p ==> -(n as int) <= #[trigger] gram@[x]@[y] as int <= n
                    as int,
        decreases p - a,
    {
        let mut grow: Vec<i64> = Vec::new();
        let mut b: usize = 0;
        while b < p
            invariant
                1 <= patterns@.len() <= MAX_PATTERNS,
                p == patterns@.len(),
                pats == pat_views(patterns@),
                all_patterns_valid(pats, n as int),
                1 <= n <= MAX_NEURONS,
                a < p,
                b <= p,
                grow@.len() == b,
                forall|y: int|
                    0 <= y < b ==> #[trigger] grow@[y] as int == dot(pats[a as int], pats[y]),
                forall|y: int|
                    0 <= y < b ==> -(n as int) <= #[trigger] grow@[y] as int <= n as int,
            decreases p - b,
        {
            let ghost terms = dot_terms(pats[a as int], pats[b as int]);
            let mut acc: i64 = 0;
            let mut t: usize = 0;
            while t < n
                invariant
                    p == patterns@.len(),
                    pats == pat_views(patterns@),
                    all_patterns_valid(pats, n as int),
                    1 <= n <= MAX_NEURONS,
                    a < p,
                    b < p,
                    t <= n,
                    terms == dot_terms(pats[a as int], pats[b as int]),
                    acc as int == sum(terms.take(t as int)),
                    -(t as int) <= acc as int <= t as int,
                decreases n - t,
            {
                proof {
                    lemma_sum_take_step(terms, t as int);
                    assert(valid_state(pats[a as int], n as int));
                    assert(valid_state(pats[b as int], n as int));
                    assert(pats[a as int][t as int] == 1 || pats[a as int][t as int] == -1);
                    assert(pats[b as int][t as int] == 1 || pats[b as int][t as int] == -1);
                    assert(patterns@[a as int]@[t as int] == 1i32 || patterns@[a as int]@[
                        t as int
                    ] == -1i32);
                    assert(patterns@[b as int]@[t as int] == 1i32 || patterns@[b as int]@[
                        t as int
                    ] == -1i32);
                }
                let prod = patterns[a][t] * patterns[b][t];
                acc = acc + prod as i64;
                t += 1;
            }
            proof {
                assert(terms.take(n as int) =~= terms);
            }
            grow.push(acc);
            b += 1;
        }
        gram.push(grow);
        a += 1;
    }
    proof {
        assert(crate::matrix::mat64(gram@) =~~= gram_of(pats));
    }

    let det0 = match crate::matrix::determinant(&gram, p) {
        Some(v) => v,
        None => {
            return None;
        },
    };
    let adj0 = match crate::matrix::adjugate(&gram, p) {
        Some(v) => v,
        None => {
            return None;
        },
    };

    // Normalise the denominator to be positive, negating the candidate
    // inverse alongside it.
    let negative = det0 < 0;
    let dt = if negative {
        if det0 == i64::MIN {
            return None;
        }
        -det0
    } else {
        det0
    };
    let adj = if negative {
        match negate_matrix(&adj0, p) {
            Some(v) => v,
            None => {
                return None;
            },
        }
    } else {
        adj0
    };

    proof {
        assert forall|x: int, y: int|
            0 <= x < p && 0 <= y < p implies -0x1_0000_0000 <= #[trigger] gram@[x]@[y] as int
            <= 0x1_0000_0000 by {
            assert(-(n as int) <= gram@[x]@[y] as int <= n as int);
        }
    }
    if !crate::matrix::check_inverse(&gram, &adj, dt, p) {
        return None;
    }
    let ghost am = crate::matrix::mat64(adj@);

    // The weight numerators: the neuron count times the quadratic form of
    // the patterns in the verified scaled inverse.
    let nn = n as i64;
    let mut wm: Vec<Vec<i64>> = Vec::new();
    let mut i: usize = 0;
    while i < n
        invariant
            1 <= patterns@.len() <= MAX_PATTERNS,
            p == patterns@.len(),
            2 <= p,
            pats == pat_views(patterns@),
            all_patterns_valid(pats, n as int),
            1 <= n <= MAX_NEURONS,
            nn == n as i64,
            adj@.len() == p,
            forall|x: int| 0 <= x < p ==> (#[trigger] adj@[x])@.len() == p,
            am == crate::matrix::mat64(adj@),
            i <= n,
            wm@.len() == i,
            forall|x: int| 0 <= x < i ==> (#[trigger] wm@[x])@.len() == n,
            forall|x: int, y: int|
                0 <= x < i && 0 <= y < n ==> -MAX_WEIGHT <= #[trigger] wm@[x]@[y] <= MAX_WEIGHT,
            forall|x: int| 0 <= x < i ==> wm@[x]@[x] == 0,
            forall|x: int, y: int|
                0 <= x < i && 0 <= y < n && x != y ==> #[trigger] wm@[x]@[y] as int == n * quad(
                    am,
                    pats,
                    x,
                    y,
                ),
        decreases n - i,
    {
        let mut row: Vec<i64> = Vec::new();
        let mut j: usize = 0;
        while j < n
            invariant
                1 <= patterns@.len() <= MAX_PATTERNS,
                p == patterns@.len(),
                2 <= p,
                pats == pat_views(patterns@),
                all_patterns_valid(pats, n as int),
                1 <= n <= MAX_NEURONS,
                nn == n as i64,
                adj@.len() == p,
                forall|x: int| 0 <= x < p ==> (#[trigger] adj@[x])@.len() == p,
                am == crate::matrix::mat64(adj@),
                i < n,
                j <= n,
                row@.len() == j,
                forall|y: int|
                    0 <= y < j ==> -MAX_WEIGHT <= #[trigger] row@[y] <= MAX_WEIGHT,
                (i as int) < j ==> row@[i as int] == 0,
                forall|y: int|
                    0 <= y < j && i as int != y ==> #[trigger] row@[y] as int == n * quad(
                        am,
                        pats,
                        i as int,
                        y,
                    ),
            decreases n - j,
        {
            if i == j {
                row.push(0);
            } else {
                let ghost qterms = quad_terms(am, pats, i as int, j as int);
                let mut qacc: i64 = 0;
                let mut a2: usize = 0;
                while a2 < p
                    invariant
                        p == patterns@.len(),
                        2 <= p,
                        pats == pat_views(patterns@),
                        all_patterns_valid(pats, n as int),
                        1 <= n <= MAX_NEURONS,
                        adj@.len() == p,
                        forall|x: int| 0 <= x < p ==> (#[trigger] adj@[x])@.len() == p,
                        am == crate::matrix::mat64(adj@),
                        i < n,
                        j < n,
                        a2 <= p,
                        qterms == quad_terms(am, pats, i as int, j as int),
                        qacc as int == sum(qterms.take(a2 as int)),
                    decreases p - a2,
                {
                    let ghost iterms = inner_terms(am, pats, a2 as int, j as int);
                    let mut v: i64 = 0;
                    let mut b2: usize = 0;
                    while b2 < p
                        invariant
                            p == patterns@.len(),
                            2 <= p,
                            pats == pat_views(patterns@),
                            all_patterns_valid(pats, n as int),
                            adj@.len() == p,
                            forall|x: int| 0 <= x < p ==> (#[trigger] adj@[x])@.len() == p,
                            am == crate::matrix::mat64(adj@),
                            j < n,
                            a2 < p,
                            b2 <= p,
                            iterms == inner_terms(am, pats, a2 as int, j as int),
                            v as int == sum(iterms.take(b2 as int)),
                        decreases p - b2,
                    {
                        proof {
                            lemma_sum_take_step(iterms, b2 as int);
                            assert(valid_state(pats[b2 as int], n as int));
                            assert(pats[b2 as int][j as int] == 1 || pats[b2 as int][j as int]
                                == -1);
                            assert(patterns@[b2 as int]@[j as int] == 1i32 || patterns@[
                                b2 as int
                            ]@[j as int] == -1i32);
                            assert(iterms[b2 as int] == am[a2 as int][b2 as int] * pats[
                                b2 as int
                            ][j as int]);
                        }
                        let amv = adj[a2][b2];
                        let s = patterns[b2][j];
                        let term: i64 = if s == 1 {
                            amv
                        } else {
                            if amv == i64::MIN {
                                return None;
                            }
                            -amv
                        };
                        v = match v.checked_add(term) {
                            Some(x) => x,
                            None => {
                                return None;
                            },
                        };
                        b2 += 1;
                    }
                    proof {
                        assert(iterms.take(p as int) =~= iterms);
                        lemma_sum_take_step(qterms, a2 as int);
                        assert(valid_state(pats[a2 as int], n as int));
                        assert(pats[a2 as int][i as int] == 1 || pats[a2 as int][i as int] == -1);
                        assert(patterns@[a2 as int]@[i as int] == 1i32 || patterns@[a2 as int]@[
                            i as int
                        ] == -1i32);
                        assert(qterms[a2 as int] == pats[a2 as int][i as int] * inner_val(
                            am,
                            pats,
                            a2 as int,
                            j as int,
                        ));
                    }
                    let si = patterns[a2][i];
                    let qterm: i64 = if si == 1 {
                        v
                    } else {
                        if v == i64::MIN {
                            return None;
                        }
                        -v
                    };
                    proof {
                        assert(v as int == inner_val(am, pats, a2 as int, j as int));
                        let pai = pats[a2 as int][i as int];
                        let iv = inner_val(am, pats, a2 as int, j as int);
                        assert(qterms[a2 as int] == pai * iv);
                        if pai == 1 {
                            assert(pai * iv == iv) by (nonlinear_arith)
                                requires
                                    pai == 1,
                            ;
                        } else {
                            assert(pai == -1);
                            assert(pai * iv == -iv) by (nonlinear_arith)
                                requires
                                    pai == -1,
                            ;
                        }
                        assert(qterm as int == qterms[a2 as int]);
                    }
                    qacc = match qacc.checked_add(qterm) {
                        Some(x) => x,
                        None => {
                            return None;
                        },
                    };
                    a2 += 1;
                }
                proof {
                    assert(qterms.take(p as int) =~= qterms);
                }
                let wnum = match nn.checked_mul(qacc) {
                    Some(x) => x,
                    None => {
                        return None;
                    },
                };
                if wnum > MAX_WEIGHT || wnum < -MAX_WEIGHT {
                    return None;
                }
                row.push(wnum);
            }
            j += 1;
        }
        wm.push(row);
        i += 1;
    }

    proof {
        assert(crate::matrix::square(am, p as int));
        assert(crate::matrix::is_scaled_identity(gram_of(pats), am, dt as int, p as int));
    }
    Some((wm, dt))
}

/// The exact pseudo-inverse weights for a single stored pattern, which
/// always exist: the Gram matrix is the single self dot product, the
/// neuron count, and its scaled inverse is the trivial candidate with
/// that count as the denominator.
fn single_pattern_weights(patterns: &Vec<Vec<i32>>, n: usize) -> (r: (Vec<Vec<i64>>, i64))
    requires
        patterns@.len() == 1,
        1 <= n <= MAX_NEURONS,
        all_patterns_valid(pat_views(patterns@), n as int),
    ensures
        r.0@.len() == n,
        forall|i: int| 0 <= i < n ==> (#[trigger] r.0@[i])@.len() == n,
        forall|i: int, j: int|
            0 <= i < n && 0 <= j < n ==> -MAX_WEIGHT <= #[trigger] r.0@[i]@[j] <= MAX_WEIGHT,
        forall|i: int| 0 <= i < n ==> r.0@[i]@[i] == 0,
        r.1 >= 1,
        exists|am: Seq<Seq<int>>|
            crate::matrix::square(am, 1) && crate::matrix::is_scaled_identity(
                gram_of(pat_views(patterns@)),
                am,
                r.1 as int,
                1,
            ) && (forall|i: int, j: int|
                0 <= i < n && 0 <= j < n && i != j ==> #[trigger] r.0@[i]@[j] as int == n * quad(
                    am,
                    pat_views(patterns@),
                    i,
                    j,
                )),
{
    let ghost pats = pat_views(patterns@);
    let ghost am1: Seq<Seq<int>> = seq![seq![1int]];
    let nn = n as i64;
    let p0 = &patterns[0];
    let mut wm: Vec<Vec<i64>> = Vec::new();
    let mut i: usize = 0;
    while i < n
        invariant
            patterns@.len() == 1,
            pats == pat_views(patterns@),
            all_patterns_valid(pats, n as int),
            1 <= n <= MAX_NEURONS,
            nn == n as i64,
            am1 == seq![seq![1int]],
            p0@ == patterns@[0]@,
            i <= n,
            wm@.len() == i,
            forall|x: int| 0 <= x < i ==> (#[trigger] wm@[x])@.len() == n,
            forall|x: int, y: int|
                0 <= x < i && 0 <= y < n ==> -MAX_WEIGHT <= #[trigger] wm@[x]@[y] <= MAX_WEIGHT,
            forall|x: int| 0 <= x < i ==> wm@[x]@[x] == 0,
            forall|x: int, y: int|
                0 <= x < i && 0 <= y < n && x != y ==> #[trigger] wm@[x]@[y] as int == n * quad(
                    am1,
                    pats,
                    x,
                    y,
                ),
        decreases n - i,
    {
        let mut row: Vec<i64> = Vec::new();
        let mut j: usize = 0;
        while j < n
            invariant
                patterns@.len() == 1,
                pats == pat_views(patterns@),
                all_patterns_valid(pats, n as int),
                1 <= n <= MAX_NEURONS,
                nn == n as i64,
                am1 == seq![seq![1int]],
                p0@ == patterns@[0]@,
                i < n,
                j <= n,
                row@.len() == j,
                forall|y: int| 0 <= y < j ==> -MAX_WEIGHT <= #[trigger] row@[y] <= MAX_WEIGHT,
                (i as int) < j ==> row@[i as int] == 0,
                forall|y: int|
                    0 <= y < j && i as int != y ==> #[trigger] row@[y] as int == n * quad(
                        am1,
                        pats,
                        i as int,
                        y,
                    ),
            decreases n - j,
        {
            if i == j {
                row.push(0);
            } else {
                proof {
                    assert(valid_state(pats[0], n as int));
                    assert(pats[0][i as int] == 1 || pats[0][i as int] == -1);
                    assert(pats[0][j as int] == 1 || pats[0][j as int] == -1);
                    assert(patterns@[0]@[i as int] == 1i32 || patterns@[0]@[i as int] == -1i32);
                    assert(patterns@[0]@[j as int] == 1i32 || patterns@[0]@[j as int] == -1i32);
                }
                let prod = p0[i] * p0[j];
                let wnum: i64 = if prod == 1 {
                    nn
                } else {
                    -nn
                };
                proof {
                    let it = inner_terms(am1, pats, 0, j as int);
                    assert(it.len() == 1);
                    assert(it[0] == am1[0][0] * pats[0][j as int]);
                    assert(it[0] == pats[0][j as int]);
                    crate::sums::lemma_sum_singleton(it);
                    assert(inner_val(am1, pats, 0, j as int) == pats[0][j as int]);
                    let qt = quad_terms(am1, pats, i as int, j as int);
                    assert(qt.len() == 1);
                    assert(qt[0] == pats[0][i as int] * inner_val(am1, pats, 0, j as int));
                    crate::sums::lemma_sum_singleton(qt);
                    assert(quad(am1, pats, i as int, j as int) == pats[0][i as int] * pats[0][
                        j as int
                    ]);
                    if pats[0][i as int] == pats[0][j as int] {
                        assert(quad(am1, pats, i as int, j as int) == 1);
                        assert(prod == 1);
                    } else {
                        assert(quad(am1, pats, i as int, j as int) == -1);
                        assert(prod == -1);
                    }
                    assert(wnum as int == n * quad(am1, pats, i as int, j as int));
                }
                row.push(wnum);
            }
            j += 1;
        }
        wm.push(row);
        i += 1;
    }

    proof {
        assert(crate::matrix::square(am1, 1));
        lemma_self_dot(pats[0]);
        let mt = crate::matrix::mul_terms(gram_of(pats), am1, 0, 0, 1nat);
        assert(mt.len() == 1);
        assert(am1[0][0] == 1);
        assert(mt[0] == gram_of(pats)[0][0] * am1[0][0]);
        assert(gram_of(pats)[0][0] == dot(pats[0], pats[0]));
        assert(valid_state(pats[0], n as int));
        assert(pats[0].len() == n);
        assert(mt[0] == n);
        crate::sums::lemma_sum_singleton(mt);
        assert(crate::matrix::mul_entry(gram_of(pats), am1, 0, 0, 1nat) == n);
        assert(((1int) as nat) == 1nat);
        assert(crate::matrix::is_scaled_identity(gram_of(pats), am1, nn as int, 1)) by {
            assert forall|aa: int, bb: int|
                0 <= aa < 1 && 0 <= bb < 1 implies #[trigger] crate::matrix::mul_entry(
                gram_of(pats),
                am1,
                aa,
                bb,
                1nat,
            ) == (if aa == bb {
                nn as int
            } else {
                0
            }) by {
                assert(aa == 0 && bb == 0);
            }
        }
    }
    (wm, nn)
}

/// Negates every entry of a square matrix, or reports that an entry has
/// no 64-bit negation.
fn negate_matrix(m: &Vec<Vec<i64>>, p: usize) -> (r: Option<Vec<Vec<i64>>>)
    requires
        m@.len() == p,
        forall|i: int| 0 <= i < p ==> (#[trigger] m@[i])@.len() == p,
    ensures
        r is Some ==> r->0@.len() == p,
        r is Some ==> forall|i: int| 0 <= i < p ==> (#[trigger] r->0@[i])@.len() == p,
{
    let mut rows: Vec<Vec<i64>> = Vec::new();
    let mut i: usize = 0;
    while i < p
        invariant
            m@.len() == p,
            forall|t: int| 0 <= t < p ==> (#[trigger] m@[t])@.len() == p,
            i <= p,
            rows@.len() == i,
            forall|t: int| 0 <= t < i ==> (#[trigger] rows@[t])@.len() == p,
        decreases p - i,
    {
        let mut row: Vec<i64> = Vec::new();
        let mut j: usize = 0;
        while j < p
            invariant
                m@.len() == p,
                forall|t: int| 0 <= t < p ==> (#[trigger] m@[t])@.len() == p,
                i < p,
                j <= p,
                row@.len() == j,
            decreases p - j,
        {
            let v = m[i][j];
            if v == i64::MIN {
                return None;
            }
            row.push(-v);
            j += 1;
        }
        rows.push(row);
        i += 1;
    }
    Some(rows)
}

/// A square matrix of zero weights.
fn zero_weights(n: usize) -> (r: Vec<Vec<i64>>)
    ensures
        r@.len() == n,
        forall|i: int| 0 <= i < n ==> (#[trigger] r@[i])@.len() == n,
        forall|i: int, j: int| 0 <= i < n && 0 <= j < n ==> #[trigger] r@[i]@[j] == 0,
{
    let mut rows: Vec<Vec<i64>> = Vec::new();
    let mut i: usize = 0;
    while i < n
        invariant
            i <= n,
            rows@.len() == i,
            forall|x: int| 0 <= x < i ==> (#[trigger] rows@[x])@.len() == n,
            forall|x: int, y: int| 0 <= x < i && 0 <= y < n ==> #[trigger] rows@[x]@[y] == 0,
        decreases n - i,
    {
        let mut row: Vec<i64> = Vec::new();
        let mut j: usize = 0;
        while j < n
            invariant
                j <= n,
                row@.len() == j,
                forall|y: int| 0 <= y < j ==> #[trigger] row@[y] == 0,
            decreases n - j,
        {
            row.push(0);
            j += 1;
        }
        rows.push(row);
        i += 1;
    }
    rows
}

/// Checks that a vector is a valid bipolar state of the expected length:
/// the length must match and every entry must be +1 or -1.
fn validate_state(state: &Vec<i32>, expected_len: usize) -> (r: Result<(), HopfieldError>)
    ensures
        r is Ok <==> valid_state(to_int32(state@), expected_len as int),
        !valid_state(to_int32(state@), expected_len as int) ==> r == Err::<(), HopfieldError>(
            state_err(to_int32(state@), expected_len as int),
        ),
{
    let ghost s = to_int32(state@);
    if state.len() != expected_len {
        return Err(HopfieldError::DimensionMismatch);
    }
    let mut k: usize = 0;
    while k < state.len()
        invariant
            s == to_int32(state@),
            state@.len() == expected_len,
            k <= state@.len(),
            forall|t: int| 0 <= t < k ==> s[t] == 1 || s[t] == -1,
        decreases state@.len() - k,
    {
        let v = state[k];
        if v != 1 && v != -1 {
            proof {
                assert(!(s[k as int] == 1 || s[k as int] == -1));
            }
            return Err(HopfieldError::InvalidStateValue);
        }
        k += 1;
    }
    Ok(())
}

} // verus!
