use qsim::circuit::{Circuit, ParseError};
use qsim::ops::{CCX, CX, H, MEVERYZ, MZ, RESET, RX, RZ, RZZ, S_ADJ, X};

fn angle_of(c: &Circuit, i: usize) -> f32 {
    let literal = c.ops[i].angle.as_ref().expect("instruction has an angle");
    std::str::from_utf8(literal).unwrap().parse::<f32>().unwrap()
}

#[test]
fn bell_program_parses_to_reset_gates_and_measure_all() {
    let c = Circuit::from_str("h 0\ncx 0 1\n").expect("Failed to parse circuit");
    assert_eq!(c.qubit_count, 2);
    let codes: Vec<u32> = c.ops.iter().map(|o| o.op_id).collect();
    assert_eq!(codes, vec![RESET, H, CX, MEVERYZ]);
    assert_eq!(c.ops[1].q1, 0);
    assert_eq!((c.ops[2].q1, c.ops[2].q2), (0, 1));
    assert!(c.ops.iter().all(|o| o.angle.is_none()));
}

#[test]
fn qubit_count_is_one_more_than_highest_index() {
    let c = Circuit::from_str("x 3\ncx 0 5\nccx 1 2 4\n").unwrap();
    assert_eq!(c.qubit_count, 6);
    let c = Circuit::from_str("rzz(0.25) 7 2\n").unwrap();
    assert_eq!(c.qubit_count, 8);
}

#[test]
fn empty_program_has_no_qubits() {
    let c = Circuit::from_str("").unwrap();
    assert_eq!(c.qubit_count, 0);
    let codes: Vec<u32> = c.ops.iter().map(|o| o.op_id).collect();
    assert_eq!(codes, vec![RESET, MEVERYZ]);
    let c = Circuit::from_str("# only a comment\n   \n\t\n").unwrap();
    assert_eq!(c.qubit_count, 0);
    assert_eq!(c.ops.len(), 2);
}

#[test]
fn explicit_measurement_still_gets_measure_all() {
    let c = Circuit::from_str("x 0\nmz 0\n").unwrap();
    let codes: Vec<u32> = c.ops.iter().map(|o| o.op_id).collect();
    assert_eq!(codes, vec![RESET, X, MZ, MEVERYZ]);
}

#[test]
fn angle_attached_or_separate() {
    let c = Circuit::from_str("rz(0.5) 1\nRZ (0.5) 1\nrzz (-1.25e-1) 0 2\n").unwrap();
    assert_eq!(c.ops[1].op_id, RZ);
    assert_eq!(c.ops[2].op_id, RZ);
    assert_eq!(c.ops[1], c.ops[2]);
    assert_eq!(angle_of(&c, 1), 0.5);
    assert_eq!(c.ops[3].op_id, RZZ);
    assert_eq!((c.ops[3].q1, c.ops[3].q2, c.ops[3].q3), (0, 2, 0));
    assert_eq!(angle_of(&c, 3), -0.125);
    assert_eq!(c.ops[1].angle.as_deref(), Some(&b"0.5"[..]));
}

#[test]
fn names_are_case_insensitive_and_aliases_map() {
    let c = Circuit::from_str("SDAG 0\nToffoli 0 1 2\n").unwrap();
    assert_eq!(c.ops[1].op_id, S_ADJ);
    assert_eq!(c.ops[2].op_id, CCX);
    assert_eq!((c.ops[2].q1, c.ops[2].q2, c.ops[2].q3), (0, 1, 2));
}

#[test]
fn comment_and_blank_lines_keep_line_numbers() {
    let err = Circuit::from_str("# header\n\nx 0\nfoo 1\n").unwrap_err();
    assert_eq!(err, ParseError::InvalidOperation { line: 4 });
}

#[test]
fn missing_angle_is_rejected_with_line() {
    assert_eq!(Circuit::from_str("rx 0").unwrap_err(), ParseError::MissingAngle { line: 1 });
}

#[test]
fn forbidden_angle_is_rejected() {
    assert_eq!(Circuit::from_str("h (0.5) 0").unwrap_err(), ParseError::UnexpectedAngle { line: 1 });
    assert_eq!(Circuit::from_str("x 0\nh(0.5) 0").unwrap_err(), ParseError::UnexpectedAngle { line: 2 });
}

#[test]
fn wrong_arity_cites_counts() {
    assert_eq!(
        Circuit::from_str("cx 0").unwrap_err(),
        ParseError::ArgumentCount { line: 1, got: 1, expected: 2 }
    );
    assert_eq!(
        Circuit::from_str("rx(0.1) 0 1").unwrap_err(),
        ParseError::ArgumentCount { line: 1, got: 3, expected: 2 }
    );
}

#[test]
fn bad_qubit_token_is_rejected() {
    assert_eq!(Circuit::from_str("x a").unwrap_err(), ParseError::InvalidQubit { line: 1 });
    assert_eq!(Circuit::from_str("x -1").unwrap_err(), ParseError::InvalidQubit { line: 1 });
    assert_eq!(Circuit::from_str("x 4294967296").unwrap_err(), ParseError::InvalidQubit { line: 1 });
    let c = Circuit::from_str("x +3").unwrap();
    assert_eq!(c.ops[1].q1, 3);
}

#[test]
fn bad_angle_is_rejected() {
    assert_eq!(Circuit::from_str("rx(abc) 0").unwrap_err(), ParseError::InvalidAngle { line: 1 });
    assert_eq!(Circuit::from_str("rx (0.5 0").unwrap_err(), ParseError::InvalidAngle { line: 1 });
    assert_eq!(Circuit::from_str("rx(1.2.3) 0").unwrap_err(), ParseError::InvalidAngle { line: 1 });
    assert_eq!(Circuit::from_str("rx(1e) 0").unwrap_err(), ParseError::InvalidAngle { line: 1 });
    let c = Circuit::from_str("rx(.5) 0\nry(5.) 0\nrz(+1E3) 0\nrx(-inf) 0\n").unwrap();
    assert_eq!(angle_of(&c, 1), 0.5);
    assert_eq!(angle_of(&c, 2), 5.0);
    assert_eq!(angle_of(&c, 3), 1000.0);
    assert_eq!(angle_of(&c, 4), f32::NEG_INFINITY);
}

#[test]
fn qubit_count_above_ceiling_is_rejected() {
    assert_eq!(Circuit::from_str("x 30").unwrap_err(), ParseError::TooManyQubits);
    assert_eq!(Circuit::from_str("x 29").unwrap().qubit_count, 30);
}

#[test]
fn ising_grid_fixture_parses_to_fixed_length() {
    // Two Trotter steps of a 5x5 transverse-field Ising model: a column of X
    // rotations, then a ZZ rotation on every horizontal and vertical edge.
    let mut src = String::from("# 5x5 Ising model\n");
    for _ in 0..2 {
        for q in 0..25 {
            src.push_str(&format!("rx(0.3) {}\n", q));
        }
        for row in 0..5 {
            for col in 0..4 {
                let q = row * 5 + col;
                src.push_str(&format!("rzz(0.1) {} {}\n", q, q + 1));
            }
        }
        for row in 0..4 {
            for col in 0..5 {
                let q = row * 5 + col;
                src.push_str(&format!("rzz (0.1) {} {}\n", q, q + 5));
            }
        }
    }
    let c = Circuit::from_str(&src).unwrap();
    assert_eq!(c.qubit_count, 25);
    assert_eq!(c.ops.len(), 132);
    assert_eq!(c.ops[1].op_id, RX);
    assert_eq!(c.ops[26].op_id, RZZ);
    assert_eq!(c.ops[131].op_id, MEVERYZ);
}
