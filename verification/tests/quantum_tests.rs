use q_rs::complex::{Amp, Quad};
use q_rs::matrix::{cr_gate, dagger, h_gate, id_with, tensor, x_gate};
use q_rs::quantum::{to_binary_chars, Q};
use std::collections::HashMap;

#[test]
fn test_to_binary_chars() {
    assert_eq!(to_binary_chars(3, 5), vec!['0', '0', '0', '1', '1']);
    assert_eq!(to_binary_chars(7, 5), vec!['0', '0', '1', '1', '1']);
    assert_eq!(to_binary_chars(15, 5), vec!['0', '1', '1', '1', '1']);
    assert_eq!(to_binary_chars(31, 5), vec!['1', '1', '1', '1', '1']);
}

#[test]
fn test_x_on_fresh_zero() {
    let mut qsim = Q::new();
    let h0 = qsim.zero();
    assert_eq!(h0, 0);
    qsim.x(&[h0]).unwrap();
    let states = qsim.state();
    assert_eq!(states.len(), 1);
    assert_eq!(states[0].index, 1);
    assert_eq!(states[0].amp, Amp { q: Quad { a: 1, b: 0, c: 0, d: 0 }, k: 0 });
}

#[test]
fn test_h_on_zero() {
    let mut qsim = Q::new();
    let h0 = qsim.zero();
    qsim.h(&[h0]).unwrap();
    let states = qsim.state();
    assert_eq!(states.len(), 2);
    // both amplitudes are exactly 1/sqrt(2) == (w - w^3)/2
    let root_half = Quad { a: 0, b: 1, c: 0, d: -1 };
    assert_eq!(states[0].index, 0);
    assert_eq!(states[0].amp, Amp { q: root_half, k: 1 });
    assert_eq!(states[1].index, 1);
    assert_eq!(states[1].amp, Amp { q: root_half, k: 1 });
    // |1/sqrt(2)|^2 numerator: 2, over 4^1
    assert_eq!(states[0].amp.prob_numerator(), Quad { a: 2, b: 0, c: 0, d: 0 });
}

#[test]
fn test_h_twice_restores_zero() {
    let mut qsim = Q::new();
    let h0 = qsim.zero();
    qsim.h(&[h0]).unwrap();
    qsim.h(&[h0]).unwrap();
    let states = qsim.state();
    assert_eq!(states.len(), 1);
    assert_eq!(states[0].index, 0);
    assert_eq!(states[0].amp.reduce(), Amp::one());
}

#[test]
fn test_dagger_inverts_rotation() {
    // prepare a two-qubit superposition, rotate, rotate back
    let mut qsim = Q::new();
    let r = qsim.zeros(2);
    qsim.h(&r).unwrap();
    let before = qsim.state();
    let g = cr_gate(3, 2, 0, 1);
    let gd = dagger(&g);
    qsim.apply(g).unwrap();
    qsim.apply(gd).unwrap();
    let after = qsim.state();
    assert_eq!(before.len(), after.len());
    for (b, a) in before.iter().zip(after.iter()) {
        assert_eq!(b.index, a.index);
        assert!(b.amp.same_value(&a.amp));
    }
}

#[test]
fn test_dagger_of_x_is_x() {
    let g = x_gate();
    let gd = dagger(&g);
    assert_eq!(gd.m, x_gate().m);
    assert_eq!(gd.k, 0);
}

#[test]
fn test_cr_phases_one_component() {
    let mut qsim = Q::new();
    let r = qsim.zeros(2);
    qsim.h(&r).unwrap();
    // rotate by a quarter turn (w^2 == i) where both bits are set
    qsim.cr(2, 0, 1).unwrap();
    let states = qsim.state();
    assert_eq!(states.len(), 4);
    assert_eq!(states[3].index, 3);
    assert_eq!(states[3].amp, Amp { q: Quad { a: 0, b: 0, c: 2, d: 0 }, k: 2 });
    assert_eq!(states[0].amp, Amp { q: Quad { a: 2, b: 0, c: 0, d: 0 }, k: 2 });
}

#[test]
fn test_tensor_associative() {
    let a = x_gate();
    let b = h_gate();
    let c = id_with(1);
    let left = tensor(&tensor(&a, &b).unwrap(), &c).unwrap();
    let right = tensor(&a, &tensor(&b, &c).unwrap()).unwrap();
    assert_eq!(left.m, right.m);
    assert_eq!(left.k, right.k);
}

#[test]
fn test_cmodexp2_gate_is_permutation() {
    // a = 7, n = 15 coprime: the index map must permute the basis states
    let g = q_rs::matrix::cmodexp2(5, 7, 0, 15, 0, &[1, 2, 3, 4]);
    let dim = 32;
    let one = Quad { a: 1, b: 0, c: 0, d: 0 };
    for r in 0..dim {
        let ones = (0..dim).filter(|&c| g.m[r][c] == one).count();
        assert_eq!(ones, 1);
    }
    for c in 0..dim {
        let ones = (0..dim).filter(|&r| g.m[r][c] == one).count();
        assert_eq!(ones, 1);
    }
    assert_eq!(g.k, 0);
}

#[test]
fn test_amp_reduce_and_same_value() {
    let a = Amp { q: Quad { a: 4, b: 0, c: -8, d: 0 }, k: 3 };
    let b = Amp { q: Quad { a: 1, b: 0, c: -2, d: 0 }, k: 1 };
    assert!(a.same_value(&b));
    assert_eq!(a.reduce(), b.reduce());
    assert!(!a.same_value(&Amp::one()));
    assert!(Amp::zero().is_zero());
}

#[test]
fn test_is_eigen_vector() {
    let n = 15;
    let a = 7;
    let t = 3;

    let mut qsim = Q::new();
    let r0 = qsim.zeros(t);
    let r1 = qsim.zero_log2(n);

    qsim.x(&[r1[r1.len() - 1]]).unwrap();
    qsim.h(&r0).unwrap();
    qsim.cmodexp2(a, n, &r0, &r1).unwrap();
    qsim.iqft(&r0).unwrap();

    let mut us: HashMap<String, Amp> = HashMap::new();
    for state in qsim.state().iter() {
        let m1 = state.to_binary_chars(&r1);
        let ui: String = m1.iter().collect();

        let v = match us.get(&ui) {
            Some(vv) => state.amp.add(vv),
            None => state.amp,
        };

        us.insert(ui, v);
    }

    let expected = vec![
        ("0001", Amp::one()),
        ("0100", Amp::zero()),
        ("0111", Amp::zero()),
        ("1101", Amp::zero()),
    ];

    for (i, e) in expected {
        let v = match us.get(i) {
            Some(v) => *v,
            None => panic!("{} not found", i),
        };
        assert_eq!(v.reduce(), e);
    }
}
