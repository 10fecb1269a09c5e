//! Activation functions for the network.

use vstd::prelude::*;

verus! {

/// An activation function and its derivative. The derivative is applied to
/// the function's output, not its input: for the sigmoid `y * (1 - y)`.
pub trait Activation<T> {
    spec fn spec_function(&self, x: T) -> T;

    spec fn spec_derivative(&self, y: T) -> T;

    fn function(&self, x: T) -> (r: T)
        ensures
            r == self.spec_function(x),
    ;

    fn derivative(&self, y: T) -> (r: T)
        ensures
            r == self.spec_derivative(y),
    ;
}

} // verus!
