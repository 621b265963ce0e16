use vstd::prelude::*;

pub mod chip_firing;
pub mod hopfield;
pub mod matrix;
pub mod rng;
pub mod sums;

verus! {

/// Common capability of the two simulation engines: run a forward pass
/// from an input, train on a data set, and report the network size.
/// Each implementation says in its own spec functions which inputs it
/// accepts and what its operations promise.
pub trait NeuralNetwork {
    type Input;

    type Output;

    type Error;

    /// The structural invariant the network upholds.
    spec fn net_valid(&self) -> bool;

    /// The inputs a forward pass accepts.
    spec fn fwd_ok(&self, input: &Self::Input) -> bool;

    /// What a forward pass promises of its result.
    spec fn fwd_post(&self, input: &Self::Input, r: &Result<Self::Output, Self::Error>) -> bool;

    /// The data sets training accepts.
    spec fn train_ok(&self, data: &Vec<Self::Input>) -> bool;

    /// What training promises of the new state, given the old one.
    spec fn train_post(
        &self,
        old_net: &Self,
        data: &Vec<Self::Input>,
        r: &Result<(), Self::Error>,
    ) -> bool;

    /// The size the network reports.
    spec fn size_of(&self) -> int;

    /// Runs the network forward from the given input.
    fn forward(&self, input: &Self::Input) -> (r: Result<Self::Output, Self::Error>)
        requires
            self.net_valid(),
            self.fwd_ok(input),
        ensures
            self.fwd_post(input, &r),
    ;

    /// Trains the network on the provided data.
    fn train(&mut self, data: &Vec<Self::Input>) -> (r: Result<(), Self::Error>)
        requires
            old(self).net_valid(),
            old(self).train_ok(data),
        ensures
            final(self).net_valid(),
            final(self).train_post(old(self), data, &r),
    ;

    /// Returns the size or dimension of the network.
    fn size(&self) -> (r: usize)
        ensures
            r == self.size_of(),
    ;
}

} // verus!
