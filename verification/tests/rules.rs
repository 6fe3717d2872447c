use pprop::rules::{
    cnot_rule, crx_rule, cry_rule, crz_rule, cy_rule, cz_rule, h_rule, rx_rule, ry_rule, rz_rule,
    s_rule, sx_rule, t_rule,
};

const I: u8 = 0;
const X: u8 = 1;
const Z: u8 = 2;
const Y: u8 = 3;

fn pair(control: u8, target: u8) -> u8 {
    4 * control + target
}

#[test]
fn rotations_turn_the_labels_that_anticommute() {
    assert_eq!(rx_rule(I), None);
    assert_eq!(rx_rule(X), None);
    assert_eq!(rx_rule(Y), Some((Z, -1)));
    assert_eq!(rx_rule(Z), Some((Y, 1)));
    assert_eq!(ry_rule(I), None);
    assert_eq!(ry_rule(Y), None);
    assert_eq!(ry_rule(X), Some((Z, 1)));
    assert_eq!(ry_rule(Z), Some((X, -1)));
    assert_eq!(rz_rule(I), None);
    assert_eq!(rz_rule(Z), None);
    assert_eq!(rz_rule(X), Some((Y, -1)));
    assert_eq!(rz_rule(Y), Some((X, 1)));
    assert_eq!(rx_rule(4), None);
}

#[test]
fn clifford_tables() {
    assert_eq!(h_rule(I), None);
    assert_eq!(h_rule(X), Some((Z, 1)));
    assert_eq!(h_rule(Y), Some((Y, -1)));
    assert_eq!(h_rule(Z), Some((X, 1)));
    assert_eq!(s_rule(I), None);
    assert_eq!(s_rule(Z), None);
    assert_eq!(s_rule(X), Some((Y, -1)));
    assert_eq!(s_rule(Y), Some((X, 1)));
    assert_eq!(sx_rule(I), None);
    assert_eq!(sx_rule(X), None);
    assert_eq!(sx_rule(Y), Some((Z, -1)));
    assert_eq!(sx_rule(Z), Some((Y, 1)));
}

#[test]
fn t_splits_x_and_y() {
    assert_eq!(t_rule(I), None);
    assert_eq!(t_rule(Z), None);
    assert_eq!(t_rule(X), Some(((X, false), (Y, true))));
    assert_eq!(t_rule(Y), Some(((Y, false), (X, false))));
}

#[test]
fn cnot_table() {
    let table = [
        (I, Y, Some((Z, Y, 1))),
        (I, Z, Some((Z, Z, 1))),
        (X, I, Some((X, X, 1))),
        (X, X, Some((X, I, 1))),
        (X, Y, Some((Y, Z, 1))),
        (X, Z, Some((Y, Y, -1))),
        (Y, I, Some((Y, X, 1))),
        (Y, X, Some((Y, I, 1))),
        (Y, Y, Some((X, Z, -1))),
        (Y, Z, Some((X, Y, 1))),
        (Z, Y, Some((I, Y, 1))),
        (Z, Z, Some((I, Z, 1))),
        (I, I, None),
        (I, X, None),
        (Z, I, None),
        (Z, X, None),
    ];
    for (c, t, out) in table {
        assert_eq!(cnot_rule(pair(c, t)), out);
    }
    assert_eq!(cnot_rule(16), None);
}

#[test]
fn cy_table() {
    let table = [
        (I, X, Some((Z, X, 1))),
        (I, Z, Some((Z, Z, 1))),
        (X, I, Some((X, Y, 1))),
        (X, X, Some((Y, Z, -1))),
        (X, Y, Some((X, I, 1))),
        (X, Z, Some((Y, X, 1))),
        (Y, I, Some((Y, Y, 1))),
        (Y, X, Some((X, Z, 1))),
        (Y, Y, Some((Y, I, 1))),
        (Y, Z, Some((X, X, -1))),
        (Z, X, Some((I, X, 1))),
        (Z, Z, Some((I, Z, 1))),
        (I, I, None),
        (I, Y, None),
        (Z, I, None),
        (Z, Y, None),
    ];
    for (c, t, out) in table {
        assert_eq!(cy_rule(pair(c, t)), out);
    }
}

#[test]
fn cz_table() {
    let table = [
        (I, X, Some((Z, X, 1))),
        (I, Y, Some((Z, Y, 1))),
        (X, I, Some((X, Z, 1))),
        (X, X, Some((Y, Y, 1))),
        (X, Y, Some((Y, X, -1))),
        (X, Z, Some((X, I, 1))),
        (Y, I, Some((Y, Z, 1))),
        (Y, X, Some((X, Y, -1))),
        (Y, Y, Some((X, X, 1))),
        (Y, Z, Some((Y, I, 1))),
        (Z, X, Some((I, X, 1))),
        (Z, Y, Some((I, Y, 1))),
        (I, I, None),
        (I, Z, None),
        (Z, I, None),
        (Z, Z, None),
    ];
    for (c, t, out) in table {
        assert_eq!(cz_rule(pair(c, t)), out);
    }
}

#[test]
fn controlled_clifford_gates_undo_themselves() {
    for rule in [cnot_rule, cy_rule, cz_rule] {
        for code in 0..16u8 {
            let (c, t, sign) = rule(code).unwrap_or((code / 4, code % 4, 1));
            let back = rule(pair(c, t)).unwrap_or((c, t, 1));
            assert_eq!((pair(back.0, back.1), back.2), (code, sign));
        }
    }
}

#[test]
fn crx_table() {
    assert_eq!(
        crx_rule(pair(I, Y)),
        Some(vec![(I, Y, 1, 0, 2), (I, Z, -1, 1, 1), (Z, Y, 1, 2, 0), (Z, Z, 1, 1, 1)])
    );
    assert_eq!(
        crx_rule(pair(I, Z)),
        Some(vec![(I, Z, 1, 0, 2), (I, Y, 1, 1, 1), (Z, Z, 1, 2, 0), (Z, Y, -1, 1, 1)])
    );
    assert_eq!(crx_rule(pair(X, I)), Some(vec![(X, I, 1, 0, 1), (Y, X, 1, 1, 0)]));
    assert_eq!(crx_rule(pair(X, X)), Some(vec![(X, X, 1, 0, 1), (Y, I, 1, 1, 0)]));
    assert_eq!(crx_rule(pair(X, Y)), Some(vec![(X, Y, 1, 0, 1), (X, Z, -1, 1, 0)]));
    assert_eq!(crx_rule(pair(X, Z)), Some(vec![(X, Z, 1, 0, 1), (X, Y, 1, 1, 0)]));
    assert_eq!(crx_rule(pair(Y, I)), Some(vec![(Y, I, 1, 0, 1), (X, X, -1, 1, 0)]));
    assert_eq!(crx_rule(pair(Y, X)), Some(vec![(Y, X, 1, 0, 1), (X, I, -1, 1, 0)]));
    assert_eq!(crx_rule(pair(Y, Y)), Some(vec![(Y, Y, 1, 0, 1), (Y, Z, -1, 1, 0)]));
    assert_eq!(crx_rule(pair(Y, Z)), Some(vec![(Y, Z, 1, 0, 1), (Y, Y, 1, 1, 0)]));
    assert_eq!(
        crx_rule(pair(Z, Y)),
        Some(vec![(Z, Y, 1, 0, 2), (Z, Z, -1, 1, 1), (I, Y, 1, 2, 0), (I, Z, 1, 1, 1)])
    );
    assert_eq!(
        crx_rule(pair(Z, Z)),
        Some(vec![(Z, Z, 1, 0, 2), (Z, Y, 1, 1, 1), (I, Z, 1, 2, 0), (I, Y, -1, 1, 1)])
    );
    for code in [pair(I, I), pair(I, X), pair(Z, I), pair(Z, X), 16] {
        assert_eq!(crx_rule(code), None);
    }
}

#[test]
fn cry_table() {
    assert_eq!(
        cry_rule(pair(I, X)),
        Some(vec![(I, X, 1, 0, 2), (I, Z, 1, 1, 1), (Z, X, 1, 2, 0), (Z, Z, -1, 1, 1)])
    );
    assert_eq!(
        cry_rule(pair(I, Z)),
        Some(vec![(I, Z, 1, 0, 2), (I, X, -1, 1, 1), (Z, Z, 1, 2, 0), (Z, X, 1, 1, 1)])
    );
    assert_eq!(cry_rule(pair(X, I)), Some(vec![(X, I, 1, 0, 1), (Y, Y, 1, 1, 0)]));
    assert_eq!(cry_rule(pair(X, X)), Some(vec![(X, X, 1, 0, 1), (X, Z, 1, 1, 0)]));
    assert_eq!(cry_rule(pair(X, Y)), Some(vec![(X, Y, 1, 0, 1), (Y, I, 1, 1, 0)]));
    assert_eq!(cry_rule(pair(X, Z)), Some(vec![(X, Z, 1, 0, 1), (X, X, -1, 1, 0)]));
    assert_eq!(cry_rule(pair(Y, I)), Some(vec![(Y, I, 1, 0, 1), (X, Y, -1, 1, 0)]));
    assert_eq!(cry_rule(pair(Y, X)), Some(vec![(Y, X, 1, 0, 1), (Y, Z, 1, 1, 0)]));
    assert_eq!(cry_rule(pair(Y, Y)), Some(vec![(Y, Y, 1, 0, 1), (X, I, -1, 1, 0)]));
    assert_eq!(cry_rule(pair(Y, Z)), Some(vec![(Y, Z, 1, 0, 1), (Y, X, -1, 1, 0)]));
    assert_eq!(
        cry_rule(pair(Z, X)),
        Some(vec![(Z, X, 1, 0, 2), (Z, Z, 1, 1, 1), (I, X, 1, 2, 0), (I, Z, -1, 1, 1)])
    );
    assert_eq!(
        cry_rule(pair(Z, Z)),
        Some(vec![(Z, Z, 1, 0, 2), (Z, X, -1, 1, 1), (I, Z, 1, 2, 0), (I, X, 1, 1, 1)])
    );
    for code in [pair(I, I), pair(I, Y), pair(Z, I), pair(Z, Y)] {
        assert_eq!(cry_rule(code), None);
    }
}

#[test]
fn crz_table() {
    assert_eq!(
        crz_rule(pair(I, X)),
        Some(vec![(I, X, 1, 0, 2), (I, Y, -1, 1, 1), (Z, X, 1, 2, 0), (Z, Y, 1, 1, 1)])
    );
    assert_eq!(
        crz_rule(pair(I, Y)),
        Some(vec![(I, Y, 1, 0, 2), (I, X, 1, 1, 1), (Z, Y, 1, 2, 0), (Z, X, -1, 1, 1)])
    );
    assert_eq!(crz_rule(pair(X, I)), Some(vec![(X, I, 1, 0, 1), (Y, Z, 1, 1, 0)]));
    assert_eq!(crz_rule(pair(X, X)), Some(vec![(X, X, 1, 0, 1), (X, Y, -1, 1, 0)]));
    assert_eq!(crz_rule(pair(X, Y)), Some(vec![(X, Y, 1, 0, 1), (X, X, 1, 1, 0)]));
    assert_eq!(crz_rule(pair(X, Z)), Some(vec![(X, Z, 1, 0, 1), (Y, I, 1, 1, 0)]));
    assert_eq!(crz_rule(pair(Y, I)), Some(vec![(Y, I, 1, 0, 1), (X, Z, -1, 1, 0)]));
    assert_eq!(crz_rule(pair(Y, X)), Some(vec![(Y, X, 1, 0, 1), (Y, Y, -1, 1, 0)]));
    assert_eq!(crz_rule(pair(Y, Y)), Some(vec![(Y, Y, 1, 0, 1), (Y, X, 1, 1, 0)]));
    assert_eq!(crz_rule(pair(Y, Z)), Some(vec![(Y, Z, 1, 0, 1), (X, I, -1, 1, 0)]));
    assert_eq!(
        crz_rule(pair(Z, X)),
        Some(vec![(Z, X, 1, 0, 2), (Z, Y, -1, 1, 1), (I, X, 1, 2, 0), (I, Y, 1, 1, 1)])
    );
    assert_eq!(
        crz_rule(pair(Z, Y)),
        Some(vec![(Z, Y, 1, 0, 2), (Z, X, 1, 1, 1), (I, Y, 1, 2, 0), (I, X, -1, 1, 1)])
    );
    for code in [pair(I, I), pair(I, Z), pair(Z, I), pair(Z, Z)] {
        assert_eq!(crz_rule(code), None);
    }
}

/// The product of two labels, and the exponent of `i` in its phase.
fn times(a: u8, b: u8) -> (u8, u8) {
    let cycle = [(X, Y), (Y, Z), (Z, X)];
    let phase = if cycle.contains(&(a, b)) {
        1
    } else if cycle.contains(&(b, a)) {
        3
    } else {
        0
    };
    (a ^ b, phase)
}

fn sign_phase(sign: i8) -> u8 {
    if sign == 1 {
        0
    } else {
        2
    }
}

#[test]
fn clifford_gates_respect_products() {
    for rule in [h_rule, s_rule, sx_rule] {
        for a in 0..4u8 {
            for b in 0..4u8 {
                let (a1, sa) = rule(a).unwrap_or((a, 1));
                let (b1, sb) = rule(b).unwrap_or((b, 1));
                let (c, phase) = times(a, b);
                let (c1, sc) = rule(c).unwrap_or((c, 1));
                let (d, image_phase) = times(a1, b1);
                assert_eq!(c1, d);
                assert_eq!(
                    (sign_phase(sa) + sign_phase(sb) + image_phase) % 4,
                    (sign_phase(sc) + phase) % 4
                );
            }
        }
    }
}

#[test]
fn controlled_gates_respect_products() {
    for rule in [cnot_rule, cy_rule, cz_rule] {
        for p in 0..16u8 {
            for q in 0..16u8 {
                let (p0, p1, sp) = rule(p).unwrap_or((p / 4, p % 4, 1));
                let (q0, q1, sq) = rule(q).unwrap_or((q / 4, q % 4, 1));
                let (c, phase_c) = times(p / 4, q / 4);
                let (t, phase_t) = times(p % 4, q % 4);
                let (r0, r1, sr) = rule(pair(c, t)).unwrap_or((c, t, 1));
                let (d0, image_c) = times(p0, q0);
                let (d1, image_t) = times(p1, q1);
                assert_eq!((r0, r1), (d0, d1));
                assert_eq!(
                    (sign_phase(sp) + sign_phase(sq) + image_c + image_t) % 4,
                    (sign_phase(sr) + phase_c + phase_t) % 4
                );
            }
        }
    }
}
