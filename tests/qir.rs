use qsim::circuit::{Circuit, ParseError};
use qsim::ops::{CX, CZ, MEVERYZ, MZ, RESET, RZ, SX};

const HEADER: &str = "declare void @__quantum__qis__h__body(%Qubit*)\n\ndefine void @main() #0 {\nentry:\n";
const FOOTER: &str = "  ret void\n}\n\nattributes #0 = { \"entry_point\" \"qir_profiles\"=\"base_profile\" \"required_num_qubits\"=\"2\" \"required_num_results\"=\"1\" }\n";

fn program(body: &str) -> String {
    format!("{}{}{}", HEADER, body, FOOTER)
}

fn with_attributes(attrs: &str) -> String {
    format!(
        "{}  call void @__quantum__qis__h__body(%Qubit* inttoptr (i64 0 to %Qubit*))\n  ret void\n}}\n\n{}\n",
        HEADER, attrs
    )
}

#[test]
fn parse_qir_minimal() {
    let qir = r#"
; ModuleID = 'qir'
source_filename = "qir"

declare void @__quantum__qis__sx__body(%Qubit*)
declare void @__quantum__qis__rz__body(double, %Qubit*)
declare void @__quantum__qis__cz__body(%Qubit*, %Qubit*)
declare void @__quantum__qis__m__body(%Qubit*, %Result*)
declare void @__quantum__rt__initialize(i8*)

define void @main() #0 {
entry:
    call void @__quantum__rt__initialize(i8* null)
    call void @__quantum__qis__sx__body(%Qubit* inttoptr (i64 0 to %Qubit*))
    call void @__quantum__qis__rz__body(double 0.5, %Qubit* inttoptr (i64 1 to %Qubit*))
    call void @__quantum__qis__cz__body(%Qubit* inttoptr (i64 0 to %Qubit*), %Qubit* inttoptr (i64 1 to %Qubit*))
    call void @__quantum__qis__m__body(%Qubit* inttoptr (i64 0 to %Qubit*), %Result* inttoptr (i64 0 to %Result*))
    ret void
}

attributes #0 = { "entry_point" "output_labeling_schema" "qir_profiles"="base_profile" "required_num_qubits"="2" "required_num_results"="2" }
"#;

    let circ = Circuit::from_qir_str(qir).expect("Failed to parse QIR");
    assert_eq!(circ.qubit_count, 2);
    // The leading reset, four instructions, and no measure-all: the program
    // measures explicitly.
    assert_eq!(circ.ops.len(), 5);
    assert_eq!(circ.ops[0].op_id, RESET);
    assert_eq!(circ.ops[1].op_id, SX);
    assert_eq!(circ.ops[2].op_id, RZ);
    let angle: f32 = std::str::from_utf8(circ.ops[2].angle.as_ref().unwrap()).unwrap().parse().unwrap();
    assert_eq!(angle, 0.5);
    assert_eq!(circ.ops[2].q1, 1);
    assert_eq!(circ.ops[3].op_id, CZ);
    assert_eq!((circ.ops[3].q1, circ.ops[3].q2), (0, 1));
    assert_eq!(circ.ops[4].op_id, MZ);
}

#[test]
fn explicit_measurement_means_no_measure_all() {
    let src = program(
        "  call void @__quantum__qis__h__body(%Qubit* inttoptr (i64 0 to %Qubit*))\n  call void @__quantum__qis__mz__body(%Qubit* inttoptr (i64 0 to %Qubit*), %Result* inttoptr (i64 0 to %Result*))\n",
    );
    let c = Circuit::from_qir_str(&src).unwrap();
    assert_eq!(c.ops.iter().filter(|o| o.op_id == MEVERYZ).count(), 0);
    assert_eq!(c.ops.last().unwrap().op_id, MZ);
}

#[test]
fn no_measurement_appends_one_measure_all() {
    let src = program(
        "  call void @__quantum__qis__h__body(%Qubit* inttoptr (i64 0 to %Qubit*))\n  call void @__quantum__qis__cnot__body(%Qubit* inttoptr (i64 0 to %Qubit*), %Qubit* inttoptr (i64 1 to %Qubit*))\n",
    );
    assert_eq!(Circuit::from_qir_str(&src).unwrap_err(), ParseError::UnsupportedOperation { line: 6 });
    let src = program(
        "  call void @__quantum__qis__h__body(%Qubit* inttoptr (i64 0 to %Qubit*))\n  call void @__quantum__qis__cx__body(%Qubit* inttoptr (i64 0 to %Qubit*), %Qubit* inttoptr (i64 1 to %Qubit*))\n",
    );
    let c = Circuit::from_qir_str(&src).unwrap();
    let codes: Vec<u32> = c.ops.iter().map(|o| o.op_id).collect();
    assert_eq!(codes, vec![RESET, qsim::ops::H, CX, MEVERYZ]);
    assert_eq!(c.ops.iter().filter(|o| o.op_id == MEVERYZ).count(), 1);
}

#[test]
fn declared_count_wins_when_larger() {
    let src = program("  call void @__quantum__qis__x__body(%Qubit* inttoptr (i64 0 to %Qubit*))\n");
    assert_eq!(Circuit::from_qir_str(&src).unwrap().qubit_count, 2);
    let src = program("  call void @__quantum__qis__x__body(%Qubit* inttoptr (i64 4 to %Qubit*))\n");
    assert_eq!(Circuit::from_qir_str(&src).unwrap().qubit_count, 5);
}

#[test]
fn from_str_detects_the_ir_dialect() {
    let src = program("  call void @__quantum__qis__x__body(%Qubit* inttoptr (i64 1 to %Qubit*))\n");
    assert_eq!(Circuit::from_str(&src).unwrap(), Circuit::from_qir_str(&src).unwrap());
}

#[test]
fn runtime_calls_are_skipped() {
    let src = program(
        "  call void @__quantum__rt__result_record_output(%Result* inttoptr (i64 0 to %Result*), i8* getelementptr inbounds ([3 x i8], [3 x i8]* @0, i64 0, i64 0))\n  call void @__quantum__qis__x__body(%Qubit* inttoptr (i64 1 to %Qubit*))\n",
    );
    let c = Circuit::from_qir_str(&src).unwrap();
    assert_eq!(c.ops.len(), 3);
}

#[test]
fn missing_profile_fails_before_any_instruction() {
    let src = with_attributes("attributes #0 = { \"entry_point\" \"required_num_qubits\"=\"2\" \"required_num_results\"=\"1\" }");
    assert_eq!(Circuit::from_qir_str(&src).unwrap_err(), ParseError::MissingProfile);
    let src = format!("{}  call void @__quantum__qis__bogus__body()\n  ret void\n}}\nattributes #0 = {{ \"required_num_qubits\"=\"2\" }}\n", HEADER);
    assert_eq!(Circuit::from_qir_str(&src).unwrap_err(), ParseError::MissingProfile);
}

#[test]
fn attribute_errors() {
    assert_eq!(
        Circuit::from_qir_str("define void @main() #0 {\nret void\n}\n").unwrap_err(),
        ParseError::MissingAttributes
    );
    assert_eq!(
        Circuit::from_qir_str("attributes #0 = { \"qir_profiles\"=\"base_profile\"").unwrap_err(),
        ParseError::UnterminatedAttributes
    );
    let wrong = with_attributes("attributes #0 = { \"qir_profiles\"=\"adaptive_profile\" \"required_num_qubits\"=\"2\" \"required_num_results\"=\"1\" }");
    assert_eq!(Circuit::from_qir_str(&wrong).unwrap_err(), ParseError::WrongProfile);
    let no_qubits = with_attributes("attributes #0 = { \"qir_profiles\"=\"base_profile\" \"required_num_results\"=\"1\" }");
    assert_eq!(Circuit::from_qir_str(&no_qubits).unwrap_err(), ParseError::MissingQubitCount);
    let no_results = with_attributes("attributes #0 = { \"qir_profiles\"=\"base_profile\" \"required_num_qubits\"=\"2\" }");
    assert_eq!(Circuit::from_qir_str(&no_results).unwrap_err(), ParseError::MissingResultCount);
    let bad_qubits = with_attributes("attributes #0 = { \"qir_profiles\"=\"base_profile\" \"required_num_qubits\"=\"two\" \"required_num_results\"=\"1\" }");
    assert_eq!(Circuit::from_qir_str(&bad_qubits).unwrap_err(), ParseError::InvalidQubitCount);
    let bad_results = with_attributes("attributes #0 = { \"qir_profiles\"=\"base_profile\" \"required_num_qubits\"=\"2\" \"required_num_results\"=\"-1\" }");
    assert_eq!(Circuit::from_qir_str(&bad_results).unwrap_err(), ParseError::InvalidResultCount);
    let too_many = with_attributes("attributes #0 = { \"qir_profiles\"=\"base_profile\" \"required_num_qubits\"=\"31\" \"required_num_results\"=\"1\" }");
    assert_eq!(Circuit::from_qir_str(&too_many).unwrap_err(), ParseError::TooManyQubits);
}

#[test]
fn call_errors_name_the_line() {
    let src = program("  call void @__quantum__qis__x__body %Qubit*\n");
    assert_eq!(Circuit::from_qir_str(&src).unwrap_err(), ParseError::InvalidCall { line: 5 });
    let src = program("  call void @__quantum__qisx(%Qubit* null)\n");
    assert_eq!(Circuit::from_qir_str(&src).unwrap_err(), ParseError::InvalidCall { line: 5 });
    let src = program("  call void @__quantum__qis__x__body(%Qubit* null)\n");
    assert_eq!(Circuit::from_qir_str(&src).unwrap_err(), ParseError::InvalidArgument { line: 5 });
    let src = program("  call void @__quantum__qis__rz__body(%Qubit* inttoptr (i64 0 to %Qubit*), double 0.5)\n");
    assert_eq!(Circuit::from_qir_str(&src).unwrap_err(), ParseError::ArgumentMismatch { line: 5 });
    let src = program("  call void @__quantum__qis__cz__body(%Qubit* inttoptr (i64 0 to %Qubit*))\n");
    assert_eq!(Circuit::from_qir_str(&src).unwrap_err(), ParseError::ArgumentMismatch { line: 5 });
    let src = program("  call void @__quantum__qis__x__body(i64 0)\n");
    assert_eq!(Circuit::from_qir_str(&src).unwrap_err(), ParseError::ArgumentMismatch { line: 5 });
}

#[test]
fn unterminated_entry_point_fails() {
    let src = "define void @main() #0 {\n  call void @__quantum__qis__x__body(%Qubit* inttoptr (i64 0 to %Qubit*))\n\nattributes #0 = { \"qir_profiles\"=\"base_profile\" \"required_num_qubits\"=\"1\" \"required_num_results\"=\"1\" }\n";
    assert_eq!(Circuit::from_qir_str(src).unwrap_err(), ParseError::UnterminatedEntryPoint);
}

#[test]
fn rotation_and_three_qubit_calls() {
    let src = program(
        "  call void @__quantum__qis__rzz__body(double -2.5e-1, %Qubit* inttoptr (i64 0 to %Qubit*), %Qubit* inttoptr (i64 1 to %Qubit*))\n  call void @__quantum__qis__ccx__body(%Qubit* inttoptr (i64 0 to %Qubit*), %Qubit* inttoptr (i64 1 to %Qubit*), %Qubit* inttoptr (i64 2 to %Qubit*))\n  call void @__quantum__qis__s__adj(%Qubit* inttoptr (i64 2 to %Qubit*))\n",
    );
    let c = Circuit::from_qir_str(&src).unwrap();
    assert_eq!(c.qubit_count, 3);
    assert_eq!(c.ops[1].op_id, qsim::ops::RZZ);
    assert_eq!(c.ops[1].angle.as_deref(), Some(&b"-2.5e-1"[..]));
    assert_eq!((c.ops[2].q1, c.ops[2].q2, c.ops[2].q3), (0, 1, 2));
    assert_eq!(c.ops[3].op_id, qsim::ops::S_ADJ);
}
