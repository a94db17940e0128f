use ling::math::amplitude::{AmplitudeState, Operator, OperatorSuperposition};
use num_complex::Complex;

#[test]
fn test_amplitude_state_pure() {
    let state = AmplitudeState::pure(2, 5, Complex::new(0.0, 0.0), Complex::new(1.0, 0.0));
    assert_eq!(state.size, 5);
    assert_eq!(state.amplitudes[2], Complex::new(1.0, 0.0));
    assert!(state.amplitudes.iter().enumerate().all(|(i, a)| {
        if i == 2 { a.norm_sqr() == 1.0 } else { a.norm_sqr() == 0.0 }
    }));
}

#[test]
fn amplitude_state_new_is_all_zero() {
    let state = AmplitudeState::new(3, Complex::new(0.0, 0.0));
    assert_eq!(state.size, 3);
    assert_eq!(state.amplitudes, vec![Complex::new(0.0, 0.0); 3]);
}

#[test]
fn operator_identity_has_unit_diagonal() {
    let zero = Complex::new(0.0, 0.0);
    let one = Complex::new(1.0, 0.0);
    let ident = Operator::identity(3, zero, one);
    assert_eq!(ident.size, 3);
    for i in 0..3 {
        for j in 0..3 {
            assert_eq!(ident.matrix[i][j], if i == j { one } else { zero });
        }
    }
    let empty = Operator::new(2, zero);
    assert_eq!(empty.matrix, vec![vec![zero; 2]; 2]);
}

#[test]
fn superposition_size_is_first_operator_size() {
    let zero = Complex::new(0.0, 0.0);
    let sup = OperatorSuperposition::new(vec![Operator::new(2, zero), Operator::new(3, zero)]);
    assert_eq!(sup.num_operators(), 2);
    assert_eq!(sup.size(), 2);
    let empty: OperatorSuperposition<Complex<f64>> = OperatorSuperposition::new(vec![]);
    assert_eq!(empty.size(), 0);
}
