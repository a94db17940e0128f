use vstd::prelude::*;

use crate::math::activation::BornRule;

verus! {

/// A toy agent that learns to interpret commands via amplitude propagation.
///
/// Architecture:
/// 1. Command → bag-of-chars feature vector f
/// 2. f → operator coefficients β = W·f (with tanh nonlinearity)
/// 3. O_eff = Σ β_k · O_k (coherent superposition)
/// 4. |ψ'⟩ = O_eff · |current_state⟩
/// 5. Output = Born rule probabilities over directions
///
/// Parameters have type `W`.
#[derive(Clone, Debug)]
pub struct ToyAgent<W> {
    /// Feature dimension (vocabulary size).
    pub feature_dim: usize,
    /// Number of label directions (always 4).
    pub num_labels: usize,
    /// Number of concept operators.
    pub num_operators: usize,
    /// Operators O_k, each a num_labels × num_labels matrix, stored flat
    /// and row-major one after the other: [op0_flat, op1_flat, ...].
    pub operators: Vec<W>,
    /// Mapping W: feature_dim × num_operators, stored row-major.
    pub weights: Vec<W>,
    /// Activation function for output.
    pub activation: BornRule,
}

/// Restoring the parameters that `flatten_params` gives back restores the
/// operators and the weights exactly.
pub proof fn lemma_restore_flatten_round_trip<W>(operators: Seq<W>, weights: Seq<W>)
    ensures
        (operators + weights).take(operators.len() as int) == operators,
        (operators + weights).skip(operators.len() as int) == weights,
{
    assert((operators + weights).take(operators.len() as int) =~= operators);
    assert((operators + weights).skip(operators.len() as int) =~= weights);
}

impl<W: Copy> ToyAgent<W> {
    /// An agent over `feature_dim` features with `num_operators` concept
    /// operators on the four directions, with the given initial parameters:
    /// `num_operators` 4 × 4 operators stored flat, and `feature_dim` ×
    /// `num_operators` weights.
    pub fn new(feature_dim: usize, num_operators: usize, operators: Vec<W>, weights: Vec<W>) -> (agent: Self)
        requires
            operators@.len() == num_operators * 16,
            weights@.len() == feature_dim * num_operators,
        ensures
            agent.feature_dim == feature_dim,
            agent.num_labels == 4,
            agent.num_operators == num_operators,
            agent.operators@ == operators@,
            agent.weights@ == weights@,
    {
        ToyAgent { feature_dim, num_labels: 4, num_operators, operators, weights, activation: BornRule }
    }

    /// Total number of trainable parameters.
    pub fn num_params(&self) -> (n: usize)
        requires
            self.operators@.len() + self.weights@.len() <= usize::MAX,
        ensures
            n == self.operators@.len() + self.weights@.len(),
    {
        self.operators.len() + self.weights.len()
    }

    /// All parameters in one sequence: the operators, then the weights.
    pub fn flatten_params(&self) -> (flat: Vec<W>)
        ensures
            flat@ == self.operators@ + self.weights@,
    {
        let mut flat: Vec<W> = Vec::new();
        let mut i: usize = 0;
        while i < self.operators.len()
            invariant
                i <= self.operators@.len(),
                flat@ == self.operators@.take(i as int),
            decreases self.operators@.len() - i,
        {
            flat.push(self.operators[i]);
            i = i + 1;
            assert(flat@ =~= self.operators@.take(i as int));
        }
        let mut j: usize = 0;
        while j < self.weights.len()
            invariant
                i == self.operators@.len(),
                j <= self.weights@.len(),
                flat@ == self.operators@ + self.weights@.take(j as int),
            decreases self.weights@.len() - j,
        {
            flat.push(self.weights[j]);
            j = j + 1;
            assert(flat@ =~= self.operators@ + self.weights@.take(j as int));
        }
        assert(self.operators@.take(i as int) =~= self.operators@);
        assert(self.weights@.take(j as int) =~= self.weights@);
        flat
    }

    /// Restore parameters from a flat sequence laid out as `flatten_params`
    /// gives it.
    pub fn restore_params(&mut self, flat: &[W])
        requires
            flat@.len() == old(self).operators@.len() + old(self).weights@.len(),
        ensures
            final(self).operators@ == flat@.take(old(self).operators@.len() as int),
            final(self).weights@ == flat@.skip(old(self).operators@.len() as int),
            final(self).feature_dim == old(self).feature_dim,
            final(self).num_labels == old(self).num_labels,
            final(self).num_operators == old(self).num_operators,
    {
        let op_len = self.operators.len();
        let mut i: usize = 0;
        while i < op_len
            invariant
                op_len == self.operators@.len(),
                op_len == old(self).operators@.len(),
                self.weights@ == old(self).weights@,
                flat@.len() == op_len + self.weights@.len(),
                self.feature_dim == old(self).feature_dim,
                self.num_labels == old(self).num_labels,
                self.num_operators == old(self).num_operators,
                i <= op_len,
                forall|k: int| 0 <= k < i ==> self.operators@[k] == flat@[k],
            decreases op_len - i,
        {
            self.operators.set(i, flat[i]);
            i = i + 1;
        }
        let w_len = self.weights.len();
        let total = flat.len();
        let mut j: usize = 0;
        while j < w_len
            invariant
                op_len == self.operators@.len(),
                op_len == old(self).operators@.len(),
                w_len == self.weights@.len(),
                flat@.len() == op_len + w_len,
                total == flat@.len(),
                self.feature_dim == old(self).feature_dim,
                self.num_labels == old(self).num_labels,
                self.num_operators == old(self).num_operators,
                forall|k: int| 0 <= k < op_len ==> self.operators@[k] == flat@[k],
                j <= w_len,
                forall|k: int| 0 <= k < j ==> self.weights@[k] == flat@[op_len + k],
            decreases w_len - j,
        {
            self.weights.set(j, flat[op_len + j]);
            j = j + 1;
        }
        assert(self.operators@ =~= flat@.take(op_len as int));
        assert(self.weights@ =~= flat@.skip(op_len as int));
    }

    /// Operator `idx` as a `num_labels` × `num_labels` matrix.
    pub fn get_operator(&self, idx: usize) -> (mat: Vec<Vec<W>>)
        requires
            self.num_labels == 0 || (idx + 1) * self.num_labels * self.num_labels <= self.operators@.len(),
        ensures
            mat@.len() == self.num_labels,
            forall|i: int| 0 <= i < self.num_labels ==> (#[trigger] mat@[i])@.len() == self.num_labels,
            forall|i: int, j: int| #![trigger mat@[i]@[j]]
                0 <= i < self.num_labels && 0 <= j < self.num_labels
                ==> mat@[i]@[j] == self.operators@[idx * self.num_labels * self.num_labels + i * self.num_labels + j],
    {
        let n = self.num_labels;
        let mut mat: Vec<Vec<W>> = Vec::new();
        if n == 0 {
            return mat;
        }
        let ol = self.operators.len();
        proof {
            assert((idx + 1) * n * n == idx * n * n + n * n) by (nonlinear_arith);
            assert(n * n >= n) by (nonlinear_arith) requires n >= 1;
            assert(idx * n <= idx * n * n) by (nonlinear_arith) requires n >= 1, idx >= 0;
        }
        let start = idx * n * n;
        let mut i: usize = 0;
        while i < n
            invariant
                n == self.num_labels,
                n >= 1,
                start == idx * n * n,
                start + n * n <= self.operators@.len(),
                ol == self.operators@.len(),
                i <= n,
                mat@.len() == i,
                forall|k: int| 0 <= k < i ==> (#[trigger] mat@[k])@.len() == n,
                forall|k: int, j: int| #![trigger mat@[k]@[j]]
                    0 <= k < i && 0 <= j < n ==> mat@[k]@[j] == self.operators@[start + k * n + j],
            decreases n - i,
        {
            let mut row: Vec<W> = Vec::new();
            let mut j: usize = 0;
            while j < n
                invariant
                    n == self.num_labels,
                    n >= 1,
                    start == idx * n * n,
                    start + n * n <= self.operators@.len(),
                    ol == self.operators@.len(),
                    i < n,
                    j <= n,
                    row@.len() == j,
                    forall|c: int| 0 <= c < j ==> row@[c] == self.operators@[start + i * n + c],
                decreases n - j,
            {
                proof {
                    assert(i * n + j < n * n) by (nonlinear_arith) requires i < n, j < n;
                    assert(i * n <= i * n + j);
                }
                row.push(self.operators[start + i * n + j]);
                j = j + 1;
            }
            mat.push(row);
            i = i + 1;
        }
        mat
    }
}

} // verus!
