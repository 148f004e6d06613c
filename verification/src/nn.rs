//! Configuration of a small feed-forward network.

use vstd::prelude::*;

verus! {

/// Layer sizes of a network with one hidden layer.
pub struct Config {
    pub in_size: usize,
    pub hidden_size: usize,
    pub out_size: usize,
}

} // verus!
