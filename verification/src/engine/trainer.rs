use vstd::prelude::*;

verus! {

/// Whether a training loop of `epochs` epochs records the loss after epoch
/// `epoch`: every `print_interval` epochs, and after the last one.
pub fn records_loss(epoch: usize, epochs: usize, print_interval: usize) -> (r: bool)
    requires
        print_interval > 0,
        epoch < epochs,
    ensures
        r == (epoch % print_interval == 0 || epoch == epochs - 1),
{
    epoch % print_interval == 0 || epoch == epochs - 1
}

/// The capacity reserved for the recorded losses of `epochs` epochs:
/// `epochs / max(print_interval, 1) + 1`.
pub fn loss_capacity(epochs: usize, print_interval: usize) -> (n: usize)
    requires
        epochs / (if print_interval > 1 { print_interval } else { 1usize }) < usize::MAX,
    ensures
        n == epochs / (if print_interval > 1 { print_interval } else { 1usize }) + 1,
{
    let interval = if print_interval > 1 { print_interval } else { 1 };
    epochs / interval + 1
}

} // verus!
