use vstd::prelude::*;

verus! {

/// A quantum-like state: a vector of amplitudes (of type `A`) over a label set.
///
/// Each label |i⟩ carries an amplitude α_i.
#[derive(Clone, Debug)]
pub struct AmplitudeState<A> {
    pub amplitudes: Vec<A>,
    pub size: usize,
}

/// A vector of `n` copies of `value`.
pub(crate) fn filled<T: Copy>(n: usize, value: T) -> (v: Vec<T>)
    ensures
        v@.len() == n,
        forall|i: int| 0 <= i < n ==> v@[i] == value,
{
    let mut v: Vec<T> = Vec::new();
    let mut i: usize = 0;
    while i < n
        invariant
            i <= n,
            v@.len() == i,
            forall|k: int| 0 <= k < i ==> v@[k] == value,
        decreases n - i,
    {
        v.push(value);
        i = i + 1;
    }
    v
}

impl<A: Copy> AmplitudeState<A> {
    /// The state of `size` labels, every amplitude `zero`.
    pub fn new(size: usize, zero: A) -> (s: Self)
        ensures
            s.size == size,
            s.amplitudes@.len() == size,
            forall|i: int| 0 <= i < size ==> s.amplitudes@[i] == zero,
    {
        AmplitudeState { amplitudes: filled(size, zero), size }
    }

    /// A "pure" state where all amplitude is concentrated on one label:
    /// amplitude `one` on `label`, `zero` elsewhere.
    pub fn pure(label: usize, size: usize, zero: A, one: A) -> (s: Self)
        requires
            label < size,
        ensures
            s.size == size,
            s.amplitudes@.len() == size,
            s.amplitudes@[label as int] == one,
            forall|i: int| 0 <= i < size && i != label ==> s.amplitudes@[i] == zero,
    {
        let mut s = Self::new(size, zero);
        s.amplitudes.set(label, one);
        s
    }
}

/// A linear operator represented as a square matrix of amplitudes: |ψ'⟩ = O|ψ⟩.
#[derive(Clone, Debug)]
pub struct Operator<A> {
    pub matrix: Vec<Vec<A>>,
    pub size: usize,
}

impl<A: Copy> Operator<A> {
    /// The `size` × `size` operator with every entry `zero`.
    pub fn new(size: usize, zero: A) -> (o: Self)
        ensures
            o.size == size,
            o.matrix@.len() == size,
            forall|i: int| 0 <= i < size ==> (#[trigger] o.matrix@[i])@.len() == size,
            forall|i: int, j: int| #![trigger o.matrix@[i]@[j]]
                0 <= i < size && 0 <= j < size ==> o.matrix@[i]@[j] == zero,
    {
        let mut matrix: Vec<Vec<A>> = Vec::new();
        let mut i: usize = 0;
        while i < size
            invariant
                i <= size,
                matrix@.len() == i,
                forall|k: int| 0 <= k < i ==> (#[trigger] matrix@[k])@.len() == size,
                forall|k: int, j: int| #![trigger matrix@[k]@[j]]
                    0 <= k < i && 0 <= j < size ==> matrix@[k]@[j] == zero,
            decreases size - i,
        {
            matrix.push(filled(size, zero));
            i = i + 1;
        }
        Operator { matrix, size }
    }

    /// The identity operator: `one` on the diagonal, `zero` elsewhere.
    pub fn identity(size: usize, zero: A, one: A) -> (o: Self)
        ensures
            o.size == size,
            o.matrix@.len() == size,
            forall|i: int| 0 <= i < size ==> (#[trigger] o.matrix@[i])@.len() == size,
            forall|i: int, j: int| #![trigger o.matrix@[i]@[j]]
                0 <= i < size && 0 <= j < size ==> o.matrix@[i]@[j] == if i == j { one } else { zero },
    {
        let mut matrix: Vec<Vec<A>> = Vec::new();
        let mut i: usize = 0;
        while i < size
            invariant
                i <= size,
                matrix@.len() == i,
                forall|k: int| 0 <= k < i ==> (#[trigger] matrix@[k])@.len() == size,
                forall|k: int, j: int| #![trigger matrix@[k]@[j]]
                    0 <= k < i && 0 <= j < size ==> matrix@[k]@[j] == if k == j { one } else { zero },
            decreases size - i,
        {
            let mut row = filled(size, zero);
            row.set(i, one);
            matrix.push(row);
            i = i + 1;
        }
        Operator { matrix, size }
    }
}

/// Coherent superposition of operators: O_eff = Σ β_k O_k.
#[derive(Clone, Debug)]
pub struct OperatorSuperposition<A> {
    pub operators: Vec<Operator<A>>,
}

impl<A> OperatorSuperposition<A> {
    pub fn new(operators: Vec<Operator<A>>) -> (s: Self)
        ensures
            s.operators@ == operators@,
    {
        OperatorSuperposition { operators }
    }

    /// The number of operators in the superposition.
    pub fn num_operators(&self) -> (n: usize)
        ensures
            n == self.operators@.len(),
    {
        self.operators.len()
    }

    /// The size of the first operator, or 0 when there is none.
    pub fn size(&self) -> (n: usize)
        ensures
            n == if self.operators@.len() > 0 { self.operators@[0].size } else { 0 },
    {
        if self.operators.len() > 0 {
            self.operators[0].size
        } else {
            0
        }
    }
}

} // verus!
